//! Prompt packs for agents: a template is rendered with the node's context,
//! cut into sections, fit to a byte budget and joined again.

use vstd::prelude::*;

use crate::io::sections::{
    apply_budget_to_sections, budgeted, content_bytes, cut_on_boundary, parse_sections,
    prompt_sections, render_sections, rendered_sections, sections_view, ParsedSection,
};
use crate::scan::{is_blank, trim, trim_str};
use crate::tree::{next_label, strings_view, Node, NodeV};

verus! {

/// The tree agent's prompt: decide whether the selected node is decomposed
/// or executed.
pub const TREE_AGENT_TEMPLATE: &'static str = "<!-- section:contract required -->
### Planner Contract
<contract>
You plan one node of a task tree. Decide whether the selected node should be decomposed into smaller children or executed as it is.
Answer with JSON matching the output schema: `decision` is `decompose` or `execute`, `summary` explains the decision, and `children` lists the new children when decomposing (each with `title`, `goal`, `acceptance`, `next`).
Do not edit any file.
</contract>
<!-- section:goal required -->
### Goal
<goal>
{{ goal }}
</goal>
{% if history %}<!-- section:history droppable -->
### History
<history>
{{ history }}
</history>
{% endif %}{% if failure %}<!-- section:failure droppable -->
### Failure
<failure>
{{ failure }}
</failure>
{% endif %}<!-- section:selected required -->
### Selected Node
<selected>
path: {{ selected.path }}
id: {{ selected.id }}
title: {{ selected.title }}
goal: {{ selected.goal }}
next: {{ selected.next }}
{% if selected.acceptance %}acceptance:
{% for item in selected.acceptance %}- {{ item }}
{% endfor %}{% endif %}</selected>
{% if tree_summary %}<!-- section:tree droppable -->
### Tree Summary
<tree>
{{ tree_summary }}
</tree>
{% endif %}{% if assumptions %}<!-- section:assumptions droppable -->
### Assumptions
<assumptions>
{{ assumptions }}
</assumptions>
{% endif %}{% if questions %}<!-- section:questions droppable -->
### Open Questions
<questions>
{{ questions }}
</questions>
{% endif %}";

/// The decomposer's prompt: split the selected node into children.
pub const DECOMPOSER_TEMPLATE: &'static str = "<!-- section:contract required -->
### Decomposer Contract
<contract>
You decompose one node of a task tree into ordered children that together achieve its goal.
Answer with JSON matching the output schema: a `summary` and `children`, each with `title`, `goal`, `acceptance` and `next`.
The runner assigns ids, order and attempts. Do not edit any file.
</contract>
<!-- section:goal required -->
### Goal
<goal>
{{ goal }}
</goal>
{% if history %}<!-- section:history droppable -->
### History
<history>
{{ history }}
</history>
{% endif %}{% if failure %}<!-- section:failure droppable -->
### Failure
<failure>
{{ failure }}
</failure>
{% endif %}<!-- section:selected required -->
### Selected Node
<selected>
path: {{ selected.path }}
id: {{ selected.id }}
title: {{ selected.title }}
goal: {{ selected.goal }}
next: {{ selected.next }}
{% if selected.acceptance %}acceptance:
{% for item in selected.acceptance %}- {{ item }}
{% endfor %}{% endif %}</selected>
{% if tree_summary %}<!-- section:tree droppable -->
### Tree Summary
<tree>
{{ tree_summary }}
</tree>
{% endif %}{% if assumptions %}<!-- section:assumptions droppable -->
### Assumptions
<assumptions>
{{ assumptions }}
</assumptions>
{% endif %}{% if questions %}<!-- section:questions droppable -->
### Open Questions
<questions>
{{ questions }}
</questions>
{% endif %}";

/// The executor's prompt: do the work of the selected node.
pub const EXECUTOR_TEMPLATE: &'static str = "<!-- section:contract required -->
### Executor Contract
<contract>
Work only on the selected node. Answer with JSON matching the output schema: `status` (`done`, `retry` or `decomposed`) and a short `summary`.
Never edit passed nodes or add children.
</contract>
{% if planner_notes %}<!-- section:planner droppable -->
### Planner Notes
<planner>
{{ planner_notes }}
</planner>
{% endif %}<!-- section:goal required -->
### Goal
<goal>
{{ goal }}
</goal>
{% if history %}<!-- section:history droppable -->
### History
<history>
{{ history }}
</history>
{% endif %}{% if failure %}<!-- section:failure droppable -->
### Failure
<failure>
{{ failure }}
</failure>
{% endif %}<!-- section:selected required -->
### Selected Node
<selected>
path: {{ selected.path }}
id: {{ selected.id }}
title: {{ selected.title }}
goal: {{ selected.goal }}
next: {{ selected.next }}
{% if selected.acceptance %}acceptance:
{% for item in selected.acceptance %}- {{ item }}
{% endfor %}{% endif %}</selected>
{% if tree_summary %}<!-- section:tree droppable -->
### Tree Summary
<tree>
{{ tree_summary }}
</tree>
{% endif %}{% if assumptions %}<!-- section:assumptions droppable -->
### Assumptions
<assumptions>
{{ assumptions }}
</assumptions>
{% endif %}{% if questions %}<!-- section:questions droppable -->
### Open Questions
<questions>
{{ questions }}
</questions>
{% endif %}";

/// What a `minijinja` template renders to, given its variables, the selected
/// node's fields and its acceptance list; `None` when rendering fails.
pub uninterp spec fn rendered_prompt(
    template: Seq<char>,
    vars: Seq<(Seq<char>, Option<Seq<char>>)>,
    selected: Seq<(Seq<char>, Seq<char>)>,
    acceptance: Seq<Seq<char>>,
) -> Option<Seq<char>>;

/// The models of template variables.
pub open spec fn vars_view(v: Seq<(String, Option<String>)>) -> Seq<(Seq<char>, Option<Seq<char>>)> {
    v.map_values(|p: (String, Option<String>)| (p.0@, match p.1 { Some(s) => Some(s@), None => None }))
}

/// The models of string pairs.
pub open spec fn pairs_view(v: Seq<(String, String)>) -> Seq<(Seq<char>, Seq<char>)> {
    v.map_values(|p: (String, String)| (p.0@, p.1@))
}

/// Renders `template` with `minijinja` (`Environment::render_str`): the
/// variables are top-level names, `selected` holds the selected node's fields
/// and its `acceptance` list.
///
/// Trusted: the output is `rendered_prompt` of the arguments; when that is
/// `None` the template did not render, and the error is minijinja's message
/// (its text is not stated).
#[verifier::external_body]
pub(crate) fn render_template(
    template: &str,
    vars: &Vec<(String, Option<String>)>,
    selected: &Vec<(String, String)>,
    acceptance: &Vec<String>,
) -> (r: Result<String, String>)
    ensures
        match r {
            Ok(s) => rendered_prompt(template@, vars_view(vars@), pairs_view(selected@), strings_view(acceptance@))
                == Some(s@),
            Err(_) => rendered_prompt(template@, vars_view(vars@), pairs_view(selected@), strings_view(acceptance@))
                is None,
        },
{
    let mut sel: std::collections::BTreeMap<String, minijinja::Value> =
        selected.iter().map(|(k, v)| (k.clone(), minijinja::Value::from(v.clone()))).collect();
    sel.insert("acceptance".to_string(), minijinja::Value::from(acceptance.clone()));
    let mut top: std::collections::BTreeMap<String, minijinja::Value> =
        vars.iter().map(|(k, v)| (k.clone(), minijinja::Value::from(v.clone()))).collect();
    top.insert("selected".to_string(), minijinja::Value::from(sel));
    minijinja::Environment::new().render_str(template, top).map_err(|e| e.to_string())
}

/// Inputs for building a prompt pack.
#[derive(Debug, Clone)]
pub struct PromptInputs {
    pub selected_path: String,
    pub selected_node: Node,
    pub tree_summary: String,
    pub context_goal: String,
    pub context_history: Option<String>,
    pub context_failure: Option<String>,
    pub assumptions: String,
    pub questions: String,
}

impl PromptInputs {
    /// Inputs from what the context and state files held (`None` when a file
    /// was missing; a missing goal, assumptions or questions file is empty).
    pub fn from_contents(
        selected_path: String,
        selected_node: Node,
        tree_summary: String,
        goal: Option<String>,
        history: Option<String>,
        failure: Option<String>,
        assumptions: Option<String>,
        questions: Option<String>,
    ) -> (r: PromptInputs)
        ensures
            r.selected_path == selected_path,
            r.selected_node@ == selected_node@,
            r.tree_summary == tree_summary,
            r.context_goal@ == (match goal { Some(g) => g@, None => Seq::empty() }),
            r.context_history == history,
            r.context_failure == failure,
            r.assumptions@ == (match assumptions { Some(a) => a@, None => Seq::empty() }),
            r.questions@ == (match questions { Some(q) => q@, None => Seq::empty() }),
    {
        PromptInputs {
            selected_path,
            selected_node,
            tree_summary,
            context_goal: match goal { Some(g) => g, None => String::new() },
            context_history: history,
            context_failure: failure,
            assumptions: match assumptions { Some(a) => a, None => String::new() },
            questions: match questions { Some(q) => q, None => String::new() },
        }
    }
}

/// `s` trimmed, or nothing when it is blank.
pub open spec fn opt_text(s: Seq<char>) -> Option<Seq<char>> {
    if trim(s).len() == 0 {
        None
    } else {
        Some(trim(s))
    }
}

/// `opt_text` of an optional string.
pub open spec fn opt_text_of(o: Option<Seq<char>>) -> Option<Seq<char>> {
    match o {
        Some(s) => opt_text(s),
        None => None,
    }
}

/// The model of an optional string.
pub open spec fn opt_view(o: Option<String>) -> Option<Seq<char>> {
    match o {
        Some(s) => Some(s@),
        None => None,
    }
}

/// The template variables for `input` (and the planner's notes, for the executor).
pub open spec fn prompt_vars(input: PromptInputs, planner: Option<Option<Seq<char>>>) -> Seq<(Seq<char>, Option<Seq<char>>)> {
    let base = seq![
        ("goal"@, Some(trim(input.context_goal@))),
        ("history"@, opt_text_of(opt_view(input.context_history))),
        ("failure"@, opt_text_of(opt_view(input.context_failure))),
        ("tree_summary"@, opt_text(input.tree_summary@)),
        ("assumptions"@, opt_text(input.assumptions@)),
        ("questions"@, opt_text(input.questions@)),
    ];
    match planner {
        Some(p) => base.push(("planner_notes"@, opt_text_of(p))),
        None => base,
    }
}

/// The selected node's fields as template values.
pub open spec fn selected_fields(path: Seq<char>, n: NodeV) -> Seq<(Seq<char>, Seq<char>)> {
    seq![("path"@, path), ("id"@, n.id), ("title"@, n.title), ("goal"@, n.goal), ("next"@, next_label(n.next))]
}

fn opt_trimmed(s: &str) -> (r: Option<String>)
    ensures
        opt_view(r) == opt_text(s@),
{
    if is_blank(s) {
        None
    } else {
        Some(trim_str(s))
    }
}

fn opt_trimmed_of(o: &Option<String>) -> (r: Option<String>)
    ensures
        opt_view(r) == opt_text_of(opt_view(*o)),
{
    match o {
        Some(s) => opt_trimmed(s.as_str()),
        None => None,
    }
}

fn named(name: &str, value: Option<String>) -> (r: (String, Option<String>))
    ensures
        r.0@ == name@,
        r.1 == value,
{
    (name.to_string(), value)
}

fn template_vars(input: &PromptInputs, planner: Option<Option<&str>>) -> (r: Vec<(String, Option<String>)>)
    ensures
        vars_view(r@) == prompt_vars(*input, match planner { Some(p) => Some(match p { Some(s) => Some(s@), None => None }), None => None }),
{
    let mut v: Vec<(String, Option<String>)> = Vec::new();
    v.push(named("goal", Some(trim_str(input.context_goal.as_str()))));
    v.push(named("history", opt_trimmed_of(&input.context_history)));
    v.push(named("failure", opt_trimmed_of(&input.context_failure)));
    v.push(named("tree_summary", opt_trimmed(input.tree_summary.as_str())));
    v.push(named("assumptions", opt_trimmed(input.assumptions.as_str())));
    v.push(named("questions", opt_trimmed(input.questions.as_str())));
    match planner {
        Some(p) => {
            let notes = match p {
                Some(s) => opt_trimmed(s),
                None => None,
            };
            v.push(named("planner_notes", notes));
        },
        None => {},
    }
    proof {
        let pl = match planner { Some(p) => Some(match p { Some(s) => Some(s@), None => None }), None => None };
        assert(vars_view(v@) =~= prompt_vars(*input, pl));
    }
    v
}

fn pair(name: &str, value: &str) -> (r: (String, String))
    ensures
        r.0@ == name@,
        r.1@ == value@,
{
    (name.to_string(), value.to_string())
}

fn selected_values(path: &str, node: &Node) -> (r: Vec<(String, String)>)
    ensures
        pairs_view(r@) == selected_fields(path@, node@),
{
    let mut v: Vec<(String, String)> = Vec::new();
    v.push(pair("path", path));
    v.push(pair("id", node.id.as_str()));
    v.push(pair("title", node.title.as_str()));
    v.push(pair("goal", node.goal.as_str()));
    v.push(pair("next", node.next.as_str()));
    proof {
        assert(pairs_view(v@) =~= selected_fields(path@, node@));
    }
    v
}

/// The pack made from a rendered prompt: its sections fit to `budget`, or
/// nothing when fitting would cut a character in two or the text is too
/// long to measure.
pub open spec fn pack_text(rendered: Option<Seq<char>>, budget: nat) -> Option<Seq<char>> {
    match rendered {
        None => None,
        Some(text) => {
            let secs = prompt_sections(text);
            if content_bytes(secs) <= usize::MAX && cut_on_boundary(secs, budget) {
                Some(rendered_sections(budgeted(secs, budget)))
            } else {
                None
            }
        },
    }
}

/// Builds prompt packs within a byte budget.
#[derive(Debug, Clone)]
pub struct PromptBuilder {
    budget_bytes: usize,
}

/// A rendered prompt.
#[derive(Debug, Clone)]
pub struct PromptPack {
    content: String,
}

impl PromptPack {
    /// The text of the pack.
    pub closed spec fn text(&self) -> Seq<char> {
        self.content@
    }

    /// The prompt text.
    pub fn render(&self) -> (r: String)
        ensures
            r@ == self.text(),
    {
        self.content.clone()
    }
}

fn sections_total(v: &Vec<ParsedSection>) -> (r: Option<usize>)
    ensures
        match r {
            Some(n) => content_bytes(sections_view(v@)) <= usize::MAX && n == content_bytes(sections_view(v@)),
            None => content_bytes(sections_view(v@)) > usize::MAX,
        },
{
    let ghost sv = sections_view(v@);
    let mut total: usize = 0;
    let mut i: usize = 0;
    while i < v.len()
        invariant
            sv == sections_view(v@),
            i <= v@.len(),
            total == content_bytes(sv.take(i as int)),
        decreases v@.len() - i,
    {
        proof {
            assert(sv.take(i + 1).drop_last() =~= sv.take(i as int));
            assert(sv.take(i + 1).last() == sv[i as int]);
        }
        let c = crate::text::chars_of(v[i].content.as_str());
        let ghost base = total;
        let mut k: usize = 0;
        proof {
            assert(c@.take(0) =~= Seq::<char>::empty());
        }
        while k < c.len()
            invariant
                i < v@.len(),
                sv == sections_view(v@),
                k <= c@.len(),
                c@ == sv[i as int].2,
                base == content_bytes(sv.take(i as int)),
                total == base + crate::scan::byte_len(c@.take(k as int)),
            decreases c@.len() - k,
        {
            proof {
                assert(c@.take(k + 1).drop_last() =~= c@.take(k as int));
                assert(c@.take(k + 1).last() == c@[k as int]);
            }
            let w = crate::scan::char_width(c[k]);
            if total > usize::MAX - w {
                proof {
                    crate::scan::lemma_byte_len_take(c@, k + 1);
                    lemma_content_bytes_ge(sv, i as int);
                }
                return None;
            }
            total = total + w;
            k = k + 1;
        }
        proof {
            assert(c@.take(c@.len() as int) =~= c@);
        }
        i = i + 1;
    }
    proof {
        assert(sv.take(v@.len() as int) =~= sv);
    }
    Some(total)
}

fn clone_sections(v: &Vec<ParsedSection>) -> (r: Vec<ParsedSection>)
    ensures
        sections_view(r@) == sections_view(v@),
{
    let mut out: Vec<ParsedSection> = Vec::new();
    let mut i: usize = 0;
    while i < v.len()
        invariant
            i <= v@.len(),
            sections_view(out@) == sections_view(v@).take(i as int),
        decreases v@.len() - i,
    {
        let ghost before = out@;
        out.push(ParsedSection { key: v[i].key.clone(), required: v[i].required, content: v[i].content.clone() });
        proof {
            assert(sections_view(out@) =~= sections_view(before).push(sections_view(v@)[i as int]));
            assert(sections_view(v@).take(i + 1) =~= sections_view(v@).take(i as int).push(sections_view(v@)[i as int]));
        }
        i = i + 1;
    }
    proof {
        assert(sections_view(v@).take(v@.len() as int) =~= sections_view(v@));
    }
    out
}

proof fn lemma_content_bytes_ge(s: Seq<crate::io::sections::SectionV>, i: int)
    requires
        0 <= i < s.len(),
    ensures
        content_bytes(s) >= content_bytes(s.take(i)) + crate::scan::byte_len(s[i].2),
    decreases s.len() - i,
{
    if i < s.len() - 1 {
        lemma_content_bytes_ge(s.drop_last(), i);
        assert(s.drop_last().take(i) =~= s.take(i));
        assert(s.drop_last()[i] == s[i]);
    } else {
        assert(s.drop_last() =~= s.take(i));
    }
}

fn cut_fits(v: &Vec<ParsedSection>, budget: usize) -> (r: bool)
    requires
        content_bytes(sections_view(v@)) <= usize::MAX,
    ensures
        r == cut_on_boundary(sections_view(v@), budget as nat),
{
    let mut copy = clone_sections(v);
    let ghost start = sections_view(v@);
    let ghost d = crate::io::sections::drop_pass(start, budget as nat, crate::io::sections::drop_order());
    let (n, last) = dropped_cut(&mut copy, budget);
    match n {
        None => true,
        Some(cut) => {
            let c = crate::text::chars_of(last.as_str());
            proof {
                crate::io::sections::lemma_drop_pass_le(start, budget as nat, crate::io::sections::drop_order());
                lemma_last_bytes(d);
            }
            crate::scan::char_index_at_bytes(c.as_slice(), cut).is_some()
        },
    }
}

proof fn lemma_last_bytes(d: Seq<crate::io::sections::SectionV>)
    requires
        d.len() > 0,
    ensures
        crate::scan::byte_len(d.last().2) <= content_bytes(d),
{
}

fn dropped_cut(v: &mut Vec<ParsedSection>, budget: usize) -> (r: (Option<usize>, String))
    requires
        content_bytes(sections_view(old(v)@)) <= usize::MAX,
    ensures
        ({
            let d = crate::io::sections::drop_pass(sections_view(old(v)@), budget as nat, crate::io::sections::drop_order());
            &&& match r.0 {
                Some(n) => crate::io::sections::cut_length(d, budget as nat) == Some(n as nat) && d.len() > 0 && r.1@ == d.last().2,
                None => crate::io::sections::cut_length(d, budget as nat) is None,
            }
        }),
{
    crate::io::sections::drop_sections(v, budget);
    let ghost d = sections_view(v@);
    proof {
        crate::io::sections::lemma_drop_pass_le(sections_view(old(v)@), budget as nat, crate::io::sections::drop_order());
    }
    let total = crate::io::sections::total_bytes(v);
    if total > budget && v.len() > 0 {
        let n = v.len();
        let last_len = crate::scan::byte_length(crate::text::chars_of(v[n - 1].content.as_str()).as_slice());
        proof {
            assert(d.drop_last().push(d.last()) =~= d);
            assert(d.last() == sections_view(v@)[n - 1]);
        }
        let other = total - last_len;
        let allowed = if budget >= other { budget - other } else { 0 };
        if last_len > allowed {
            let cut = if allowed > 12 { allowed - 12 } else { allowed };
            return (Some(cut), v[n - 1].content.clone());
        }
    }
    (None, String::new())
}

impl PromptBuilder {
    /// A builder for packs of at most `budget_bytes` of section text.
    pub fn new(budget_bytes: usize) -> (r: PromptBuilder)
        ensures
            r.budget() == budget_bytes,
    {
        PromptBuilder { budget_bytes }
    }

    /// The byte budget.
    pub closed spec fn budget(&self) -> usize {
        self.budget_bytes
    }

    fn pack(&self, rendered: Option<String>) -> (r: Option<PromptPack>)
        ensures
            match r {
                Some(p) => pack_text(opt_view(rendered), self.budget() as nat) == Some(p.text()),
                None => pack_text(opt_view(rendered), self.budget() as nat) is None,
            },
    {
        let text = match rendered {
            None => return None,
            Some(t) => t,
        };
        let mut sections = parse_sections(text.as_str());
        match sections_total(&sections) {
            None => return None,
            Some(_) => {},
        }
        if !cut_fits(&sections, self.budget_bytes) {
            return None;
        }
        apply_budget_to_sections(&mut sections, self.budget_bytes);
        Some(PromptPack { content: render_sections(&sections) })
    }

    /// The tree agent's prompt for `input`.
    pub fn build_tree_agent(&self, input: &PromptInputs) -> (r: Option<PromptPack>)
        ensures
            ({
                let rendered = rendered_prompt(
                    TREE_AGENT_TEMPLATE@,
                    prompt_vars(*input, None),
                    selected_fields(input.selected_path@, input.selected_node@),
                    input.selected_node@.acceptance,
                );
                match r {
                    Some(p) => pack_text(rendered, self.budget() as nat) == Some(p.text()),
                    None => pack_text(rendered, self.budget() as nat) is None,
                }
            }),
    {
        let vars = template_vars(input, None);
        let selected = selected_values(input.selected_path.as_str(), &input.selected_node);
        let rendered = match render_template(TREE_AGENT_TEMPLATE, &vars, &selected, &input.selected_node.acceptance) {
            Ok(text) => Some(text),
            Err(_) => None,
        };
        self.pack(rendered)
    }

    /// The decomposer's prompt for `input`.
    pub fn build_decomposer(&self, input: &PromptInputs) -> (r: Option<PromptPack>)
        ensures
            ({
                let rendered = rendered_prompt(
                    DECOMPOSER_TEMPLATE@,
                    prompt_vars(*input, None),
                    selected_fields(input.selected_path@, input.selected_node@),
                    input.selected_node@.acceptance,
                );
                match r {
                    Some(p) => pack_text(rendered, self.budget() as nat) == Some(p.text()),
                    None => pack_text(rendered, self.budget() as nat) is None,
                }
            }),
    {
        let vars = template_vars(input, None);
        let selected = selected_values(input.selected_path.as_str(), &input.selected_node);
        let rendered = match render_template(DECOMPOSER_TEMPLATE, &vars, &selected, &input.selected_node.acceptance) {
            Ok(text) => Some(text),
            Err(_) => None,
        };
        self.pack(rendered)
    }

    /// The executor's prompt for `input`, with the planner's notes.
    pub fn build_executor(&self, input: &PromptInputs, planner_notes: Option<&str>) -> (r: Option<PromptPack>)
        ensures
            ({
                let notes = match planner_notes { Some(s) => Some(s@), None => None };
                let rendered = rendered_prompt(
                    EXECUTOR_TEMPLATE@,
                    prompt_vars(*input, Some(notes)),
                    selected_fields(input.selected_path@, input.selected_node@),
                    input.selected_node@.acceptance,
                );
                match r {
                    Some(p) => pack_text(rendered, self.budget() as nat) == Some(p.text()),
                    None => pack_text(rendered, self.budget() as nat) is None,
                }
            }),
    {
        let vars = template_vars(input, Some(planner_notes));
        let selected = selected_values(input.selected_path.as_str(), &input.selected_node);
        let rendered = match render_template(EXECUTOR_TEMPLATE, &vars, &selected, &input.selected_node.acceptance) {
            Ok(text) => Some(text),
            Err(_) => None,
        };
        self.pack(rendered)
    }
}

} // verus!
