//! Which programs are tried, in order, to open a file, and with what
//! arguments.
use vstd::prelude::*;
use vstd::string::*;
use crate::shell_escape::{escape, escaped};

verus! {

/// One program to start: its name and its arguments.
pub struct Launch {
    pub program: String,
    pub args: Vec<String>,
}

/// The mathematical value of a [`Launch`].
pub struct LaunchView {
    pub program: Seq<char>,
    pub args: Seq<Seq<char>>,
}

impl View for Launch {
    type V = LaunchView;

    open spec fn view(&self) -> LaunchView {
        LaunchView { program: self.program@, args: self.args@.map_values(|a: String| a@) }
    }
}

/// A whitespace character: one with Unicode's `White_Space` property.
pub open spec fn is_blank(c: char) -> bool {
    ('\u{9}' <= c && c <= '\u{d}') || c == ' ' || c == '\u{85}' || c == '\u{a0}' || c
        == '\u{1680}' || ('\u{2000}' <= c && c <= '\u{200a}') || c == '\u{2028}' || c
        == '\u{2029}' || c == '\u{202f}' || c == '\u{205f}' || c == '\u{3000}'
}

/// Whether `c` is whitespace.
pub fn blank_char(c: char) -> (r: bool)
    ensures
        r == is_blank(c),
{
    ('\u{9}' <= c && c <= '\u{d}') || c == ' ' || c == '\u{85}' || c == '\u{a0}' || c
        == '\u{1680}' || ('\u{2000}' <= c && c <= '\u{200a}') || c == '\u{2028}' || c
        == '\u{2029}' || c == '\u{202f}' || c == '\u{205f}' || c == '\u{3000}'
}

/// The command holds whitespace, so it carries arguments of its own.
pub open spec fn has_blank(s: Seq<char>) -> bool {
    exists|i: int| 0 <= i < s.len() && is_blank(#[trigger] s[i])
}

/// The viewer used when no editor is configured, and the first fallback.
pub open spec fn pager() -> Seq<char> {
    seq!['l', 'e', 's', 's']
}

/// The last fallback.
pub open spec fn basic_editor() -> Seq<char> {
    seq!['v', 'i']
}

/// How the configured command `editor` is started on `path`: through
/// `sh -c` with the path quoted when the command holds whitespace, else
/// directly with the path as its one argument.
pub open spec fn editor_launch(editor: Seq<char>, path: Seq<char>) -> LaunchView {
    if has_blank(editor) {
        LaunchView {
            program: seq!['s', 'h'],
            args: seq![seq!['-', 'c'], editor + seq![' '] + escaped(path)],
        }
    } else {
        LaunchView { program: editor, args: seq![path] }
    }
}

/// The programs to try on `path`, in order: the configured editor (the pager
/// when none is), then the pager, then the basic editor.
pub open spec fn launch_plan(editor: Option<Seq<char>>, path: Seq<char>) -> Seq<LaunchView> {
    let cmd = match editor {
        Some(e) => e,
        None => pager(),
    };
    seq![
        editor_launch(cmd, path),
        LaunchView { program: pager(), args: seq![path] },
        LaunchView { program: basic_editor(), args: seq![path] },
    ]
}

/// The views of a sequence of launches.
pub open spec fn launch_views(s: Seq<Launch>) -> Seq<LaunchView> {
    s.map_values(|l: Launch| l@)
}

/// Whether `s` holds whitespace.
pub fn contains_blank(s: &str) -> (r: bool)
    ensures
        r == has_blank(s@),
{
    let n = s.unicode_len();
    let mut i: usize = 0;
    while i < n
        invariant
            n == s@.len(),
            i <= n,
            forall|k: int| 0 <= k < i ==> !is_blank(#[trigger] s@[k]),
        decreases n - i,
    {
        let c = s.get_char(i);
        if blank_char(c) {
            return true;
        }
        i = i + 1;
    }
    false
}

fn single_arg(program: String, path: &String) -> (r: Launch)
    ensures
        r@ == (LaunchView { program: program@, args: seq![path@] }),
{
    let mut args: Vec<String> = Vec::new();
    args.push(path.clone());
    let r = Launch { program, args };
    assert(r@.args =~= seq![path@]);
    r
}

/// The programs to try, in order, to open `path` with the configured editor
/// command `editor` (`None` when none is configured).
pub fn editor_plan(editor: Option<String>, path: String) -> (r: Vec<Launch>)
    ensures
        launch_views(r@) == launch_plan(
            match editor {
                Some(e) => Some(e@),
                None => None,
            },
            path@,
        ),
{
    proof {
        reveal_strlit("less");
        reveal_strlit("vi");
        reveal_strlit("sh");
        reveal_strlit("-c");
        reveal_strlit(" ");
    }
    let cmd = match editor {
        Some(e) => e,
        None => String::from_str("less"),
    };
    let first = if contains_blank(cmd.as_str()) {
        let line = cmd.concat(" ").concat(escape(path.clone()).as_str());
        let mut args: Vec<String> = Vec::new();
        args.push(String::from_str("-c"));
        args.push(line);
        let l = Launch { program: String::from_str("sh"), args };
        assert(l@.program =~= seq!['s', 'h']);
        assert(l@.args[0] =~= seq!['-', 'c']);
        assert(l@.args[1] =~= cmd@ + seq![' '] + escaped(path@));
        assert(l@.args =~= seq![seq!['-', 'c'], cmd@ + seq![' '] + escaped(path@)]);
        l
    } else {
        single_arg(cmd, &path)
    };
    assert(cmd@ == match editor {
        Some(e) => e@,
        None => pager(),
    });
    assert(first@ == editor_launch(cmd@, path@));
    let mut plan: Vec<Launch> = Vec::new();
    plan.push(first);
    let less = String::from_str("less");
    assert(less@ =~= pager());
    plan.push(single_arg(less, &path));
    let vi = String::from_str("vi");
    assert(vi@ =~= basic_editor());
    plan.push(single_arg(vi, &path));
    assert(launch_views(plan@) =~= launch_plan(
        match editor {
            Some(e) => Some(e@),
            None => None,
        },
        path@,
    ));
    plan
}

} // verus!
