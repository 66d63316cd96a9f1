//! The system prompt.
use vstd::prelude::*;
use vstd::string::*;

use crate::context::agents::{AgentsFile, AgentsView};
use crate::context::skills::{SkillMetadata, SkillView};
use crate::text::{begins, ends, views};

verus! {

/// What the system prompt tells of.
#[derive(Debug)]
pub struct ContextInput {
    pub cwd: String,
    pub agents: Vec<AgentsFile>,
    pub skills: Vec<SkillMetadata>,
    pub platform: String,
    pub shell: String,
}

/// The instructions of one file.
pub open spec fn agents_section(file: AgentsView) -> Seq<char> {
    "\n# "@ + file.path + "\n"@ + file.content + "\n"@
}

/// The instructions of files, one after another.
pub open spec fn agents_sections(files: Seq<AgentsView>) -> Seq<char>
    decreases files.len(),
{
    if files.len() == 0 {
        Seq::empty()
    } else {
        agents_sections(files.drop_last()) + agents_section(files.last())
    }
}

/// What is told of one skill.
pub open spec fn skill_section(skill: SkillView) -> Seq<char> {
    "- "@ + skill.name + "\n  "@ + skill.description + "\n  Path: "@ + skill.path + "\n"@
}

/// What is told of skills, one after another.
pub open spec fn skill_sections(skills: Seq<SkillView>) -> Seq<char>
    decreases skills.len(),
{
    if skills.len() == 0 {
        Seq::empty()
    } else {
        skill_sections(skills.drop_last()) + skill_section(skills.last())
    }
}

/// The system prompt.
pub open spec fn system_prompt(
    cwd: Seq<char>,
    agents: Seq<AgentsView>,
    skills: Seq<SkillView>,
    platform: Seq<char>,
    shell: Seq<char>,
) -> Seq<char> {
    OPENING@ + cwd + GUIDANCE@ + (if agents.len() == 0 {
        Seq::empty()
    } else {
        AGENTS_HEADING@ + agents_sections(agents)
    }) + (if skills.len() == 0 {
        Seq::empty()
    } else {
        SKILLS_HEADING@ + skill_sections(skills)
    }) + ("\nEnvironment:\n- platform: "@ + platform + "\n- shell: "@ + shell + "\n"@)
}

/// What stands before the working directory.
pub const OPENING: &'static str = "You are a coding agent operating in ";

/// How to work.
pub const GUIDANCE: &'static str = ".\n\nInspect only what you need. Prefer minimal, targeted changes.\nUse tools only when the request requires workspace facts or actions. Answer simple conversation, formatting, and direct-answer requests without tools. Never inspect the workspace merely because it is available.\nUse read to inspect files before editing. Use apply_patch for file edits.\nRelative read and apply_patch paths are resolved from the cwd; absolute paths and parent traversal are allowed.\nUse bash for search, git, build, tests, and other shell operations.\nBefore any git command, first confirm that .git exists; otherwise do not run git.\n\nWhen independent tool calls can run in parallel, issue them together.\nDo not parallelize dependent or conflicting mutations.\n\nFollow all active AGENTS.md instructions.\nAfter modifying code, run relevant validation when practical.\nThe Fish script records command metadata in SQLite. The Rust runtime injects recent records from the current Fish session and cwd into each request under `Runtime shell context`. Commands listed there are directly visible to you. Do not claim that the integration lacks context injection or that you cannot see listed commands. Bash tool calls in the conversation are also visible to you.\n";

/// What stands before the instructions of files.
pub const AGENTS_HEADING: &'static str = "\nActive AGENTS.md instructions:\n";

/// What stands before the skills.
pub const SKILLS_HEADING: &'static str = "\nAvailable Skills. Each one lists only its name and description; when a task matches a description, read the SKILL.md at the listed path before proceeding. Resolve relative paths inside a skill against that skill's own directory, which is the parent of its SKILL.md, and pass absolute paths to tools.\n";

/// The system prompt.
pub fn build_system_prompt(input: &ContextInput) -> (r: String)
    ensures
        r@ == system_prompt(
            input.cwd@,
            views(input.agents@),
            views(input.skills@),
            input.platform@,
            input.shell@,
        ),
{
    let ghost files = views(input.agents@);
    let ghost all = views(input.skills@);
    let mut sections = String::new();
    assert(files.take(0) =~= Seq::empty());
    assert(sections@ =~= agents_sections(files.take(0)));
    let mut i: usize = 0;
    while i < input.agents.len()
        invariant
            i <= input.agents.len(),
            files == views(input.agents@),
            sections@ == agents_sections(files.take(i as int)),
        decreases input.agents.len() - i,
    {
        assert(files.take(i + 1).drop_last() =~= files.take(i as int));
        let file = &input.agents[i];
        assert(files.take(i + 1).last() == file@);
        let section = "\n# ".to_owned().concat(&file.path).concat("\n").concat(
            &file.content,
        ).concat("\n");
        sections.append(&section);
        i += 1;
    }
    assert(files.take(files.len() as int) =~= files);
    let mut listed = String::new();
    assert(all.take(0) =~= Seq::empty());
    assert(listed@ =~= skill_sections(all.take(0)));
    i = 0;
    while i < input.skills.len()
        invariant
            i <= input.skills.len(),
            all == views(input.skills@),
            listed@ == skill_sections(all.take(i as int)),
        decreases input.skills.len() - i,
    {
        assert(all.take(i + 1).drop_last() =~= all.take(i as int));
        let skill = &input.skills[i];
        assert(all.take(i + 1).last() == skill@);
        let section = "- ".to_owned().concat(&skill.name).concat("\n  ").concat(
            &skill.description,
        ).concat("\n  Path: ").concat(&skill.path).concat("\n");
        listed.append(&section);
        i += 1;
    }
    assert(all.take(all.len() as int) =~= all);
    let mut prompt = OPENING.to_owned().concat(&input.cwd).concat(GUIDANCE);
    let ghost front = prompt@;
    if input.agents.len() > 0 {
        let part = AGENTS_HEADING.to_owned().concat(&sections);
        prompt.append(&part);
    }
    let ghost told = prompt@;
    assert(told =~= front + (if files.len() == 0 {
        Seq::empty()
    } else {
        AGENTS_HEADING@ + agents_sections(files)
    }));
    if input.skills.len() > 0 {
        let part = SKILLS_HEADING.to_owned().concat(&listed);
        prompt.append(&part);
    }
    assert(prompt@ =~= told + (if all.len() == 0 {
        Seq::empty()
    } else {
        SKILLS_HEADING@ + skill_sections(all)
    }));
    let environment = "\nEnvironment:\n- platform: ".to_owned().concat(&input.platform).concat(
        "\n- shell: ",
    ).concat(&input.shell).concat("\n");
    prompt.append(&environment);
    prompt
}

/// The sections of a prompt come one after another, each in full.
pub proof fn law_sections_come_one_after_another(
    a: Seq<AgentsView>,
    b: Seq<AgentsView>,
    file: AgentsView,
    s: Seq<SkillView>,
    t: Seq<SkillView>,
    skill: SkillView,
)
    ensures
        agents_sections(a + b) == agents_sections(a) + agents_sections(b),
        agents_sections(seq![file]) == "\n# "@ + file.path + "\n"@ + file.content + "\n"@,
        skill_sections(s + t) == skill_sections(s) + skill_sections(t),
        skill_sections(seq![skill]) == "- "@ + skill.name + "\n  "@ + skill.description
            + "\n  Path: "@ + skill.path + "\n"@,
{
    lemma_agents_sections(a, b);
    lemma_skill_sections(s, t);
    assert(seq![file].drop_last() =~= Seq::empty());
    assert(seq![skill].drop_last() =~= Seq::empty());
    assert(agents_sections(seq![file].drop_last()) =~= Seq::empty());
    assert(skill_sections(seq![skill].drop_last()) =~= Seq::empty());
    assert(agents_sections(seq![file]) =~= agents_section(file));
    assert(skill_sections(seq![skill]) =~= skill_section(skill));
}

proof fn lemma_agents_sections(a: Seq<AgentsView>, b: Seq<AgentsView>)
    ensures
        agents_sections(a + b) == agents_sections(a) + agents_sections(b),
    decreases b.len(),
{
    if b.len() == 0 {
        assert(a + b =~= a);
        assert(agents_sections(a) + agents_sections(b) =~= agents_sections(a));
    } else {
        lemma_agents_sections(a, b.drop_last());
        assert((a + b).drop_last() =~= a + b.drop_last());
        assert(agents_sections(a + b) =~= agents_sections(a) + agents_sections(b));
    }
}

proof fn lemma_skill_sections(a: Seq<SkillView>, b: Seq<SkillView>)
    ensures
        skill_sections(a + b) == skill_sections(a) + skill_sections(b),
    decreases b.len(),
{
    if b.len() == 0 {
        assert(a + b =~= a);
        assert(skill_sections(a) + skill_sections(b) =~= skill_sections(a));
    } else {
        lemma_skill_sections(a, b.drop_last());
        assert((a + b).drop_last() =~= a + b.drop_last());
        assert(skill_sections(a + b) =~= skill_sections(a) + skill_sections(b));
    }
}

/// The prompt names the working directory first, then holds the instructions and
/// the skills, each under a heading where there are some, and ends with the
/// platform and the shell.
pub proof fn law_the_prompt_holds_its_parts(
    cwd: Seq<char>,
    agents: Seq<AgentsView>,
    skills: Seq<SkillView>,
    platform: Seq<char>,
    shell: Seq<char>,
)
    ensures
        ({
            let prompt = system_prompt(cwd, agents, skills, platform, shell);
            let end = "\nEnvironment:\n- platform: "@ + platform + "\n- shell: "@ + shell + "\n"@;
            let start = OPENING@ + cwd + GUIDANCE@;
            &&& begins(prompt, start)
            &&& ends(prompt, end)
            &&& agents.len() > 0 && skills.len() > 0 ==> prompt == start + AGENTS_HEADING@
                + agents_sections(agents) + SKILLS_HEADING@ + skill_sections(skills) + end
            &&& agents.len() > 0 && skills.len() == 0 ==> prompt == start + AGENTS_HEADING@
                + agents_sections(agents) + end
            &&& agents.len() == 0 && skills.len() > 0 ==> prompt == start + SKILLS_HEADING@
                + skill_sections(skills) + end
            &&& agents.len() == 0 && skills.len() == 0 ==> prompt == start + end
        }),
{
    let prompt = system_prompt(cwd, agents, skills, platform, shell);
    let end = "\nEnvironment:\n- platform: "@ + platform + "\n- shell: "@ + shell + "\n"@;
    let start = OPENING@ + cwd + GUIDANCE@;
    let middle = (if agents.len() == 0 {
        Seq::empty()
    } else {
        AGENTS_HEADING@ + agents_sections(agents)
    }) + (if skills.len() == 0 {
        Seq::empty()
    } else {
        SKILLS_HEADING@ + skill_sections(skills)
    });
    assert(prompt =~= start + middle + end);
    assert(prompt.subrange(0, start.len() as int) =~= start);
    assert(prompt.subrange(prompt.len() - end.len(), prompt.len() as int) =~= end);
    if agents.len() > 0 && skills.len() > 0 {
        assert(prompt =~= start + AGENTS_HEADING@ + agents_sections(agents) + SKILLS_HEADING@
            + skill_sections(skills) + end);
    } else if agents.len() > 0 {
        assert(prompt =~= start + AGENTS_HEADING@ + agents_sections(agents) + end);
    } else if skills.len() > 0 {
        assert(prompt =~= start + SKILLS_HEADING@ + skill_sections(skills) + end);
    } else {
        assert(prompt =~= start + end);
    }
}

} // verus!
