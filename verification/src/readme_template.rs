//! The `backlog/README.md` that `vat init` writes once: a fixed text in which
//! every `{prefix}` stands for the project's ID prefix.
use vstd::prelude::*;
use crate::text::{chars_of, occurs_at, occurs_at_exec, push_char, push_str, starts_with};

verus! {

/// The README template. `{prefix}` marks each place where the project's ID
/// prefix goes.
pub const BACKLOG_README_TEMPLATE: &'static str = "# Backlog\n\nThis directory is managed by VAT (Versioned Addressable Tasks): a task\nbacklog kept as plain markdown in the repository, where every task has a\nshort, stable ID such as `{prefix}-7k2`.\n\n## Getting vat\n\nInstall the command-line tool with `cargo install vat`.\n\n## Files\n\n- `backlog.md`: the task list. Each task is a bullet line such as\n  `- [{prefix}-7k2] Write the release notes`; indented lines under a bullet are\n  notes. Everything after a line holding only `---` is free-form text.\n- `vat.toml`: the project configuration; `[project].id` is the ID prefix\n  (`{prefix}`).\n- `.used-ids`: every ID ever assigned, one per line, so that no ID is reused.\n- `items/`: one file per task with longer notes, such as `items/{prefix}-7k2.md`.\n\n## Workflow\n\n1. Add tasks to `backlog.md` as bullets, without IDs.\n2. Run `vat sync` to give new tasks IDs (like `{prefix}-7k2`), move notes into\n   `items/`, and tidy markers.\n3. Run `vat start {prefix}-7k2` to claim a task, and `vat block` / `vat unblock`\n   to record what waits on what.\n4. Run `vat done {prefix}-7k2` when a task is finished: it leaves the backlog and\n   its ID is never handed out again.\n";

/// `s` with every non-overlapping occurrence of `pat`, from the left, replaced
/// by `rep` (`str::replace`, for a non-empty `pat`).
pub open spec fn replace_all(s: Seq<char>, pat: Seq<char>, rep: Seq<char>) -> Seq<char>
    decreases s.len(),
{
    if s.len() == 0 {
        Seq::empty()
    } else if pat.len() > 0 && starts_with(s, pat) {
        rep + replace_all(s.skip(pat.len() as int), pat, rep)
    } else {
        seq![s[0]] + replace_all(s.skip(1), pat, rep)
    }
}

/// The README for a project with ID prefix `prefix`: the template with every
/// `{prefix}` replaced. The prefix is not checked here.
pub fn render(prefix: &str) -> (r: String)
    ensures
        r@ == replace_all(BACKLOG_README_TEMPLATE@, "{prefix}"@, prefix@),
{
    replace_text(BACKLOG_README_TEMPLATE, "{prefix}", prefix)
}

/// `s` with every occurrence of the non-empty `pat` replaced by `rep`.
fn replace_text(s: &str, pat: &str, rep: &str) -> (r: String)
    ensures
        r@ == replace_all(s@, pat@, rep@),
{
    let v = chars_of(s);
    let w = chars_of(pat);
    let mut out = String::new();
    let mut i: usize = 0;
    assert(v@.skip(0) =~= s@);
    assert(out@ + replace_all(v@.skip(0), pat@, rep@) =~= replace_all(s@, pat@, rep@));
    while i < v.len()
        invariant
            v@ == s@,
            w@ == pat@,
            i <= v@.len(),
            out@ + replace_all(v@.skip(i as int), pat@, rep@) == replace_all(s@, pat@, rep@),
        decreases v@.len() - i,
    {
        let ghost rest = v@.skip(i as int);
        let ghost out0 = out@;
        if w.len() > 0 && occurs_at_exec(&v, i, &w) {
            assert(rest.subrange(0, pat@.len() as int) =~= v@.subrange(i as int, i + pat@.len()));
            assert(rest.skip(pat@.len() as int) =~= v@.skip(i + pat@.len()));
            push_str(&mut out, rep);
            assert(out0 + (rep@ + replace_all(v@.skip(i + pat@.len()), pat@, rep@)) =~= out@
                + replace_all(v@.skip(i + pat@.len()), pat@, rep@));
            i = i + w.len();
        } else {
            if w.len() > 0 {
                assert(!starts_with(rest, pat@)) by {
                    if starts_with(rest, pat@) {
                        assert(rest.subrange(0, pat@.len() as int) =~= v@.subrange(
                            i as int,
                            i + pat@.len(),
                        ));
                    }
                }
            }
            assert(rest.skip(1) =~= v@.skip(i + 1));
            assert(rest[0] == v@[i as int]);
            push_char(&mut out, v[i]);
            assert(out0 + (seq![v@[i as int]] + replace_all(v@.skip(i + 1), pat@, rep@)) =~= out@
                + replace_all(v@.skip(i + 1), pat@, rep@));
            i = i + 1;
        }
    }
    assert(v@.skip(i as int) =~= Seq::<char>::empty());
    out
}

} // verus!
