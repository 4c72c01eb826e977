//! Quoting for the remote shell, and the scanner command line.

use crate::text::{chars_of, push_char};
use vstd::prelude::*;

verus! {

broadcast use vstd::string::group_string_axioms;

/// Characters that need no quoting: ASCII letters and digits and `/_.-~=:`.
pub open spec fn plain_char(c: char) -> bool {
    ||| ('a' <= c && c <= 'z')
    ||| ('A' <= c && c <= 'Z')
    ||| ('0' <= c && c <= '9')
    ||| c == '/'
    ||| c == '_'
    ||| c == '.'
    ||| c == '-'
    ||| c == '~'
    ||| c == '='
    ||| c == ':'
}

/// A character inside single quotes: a quote becomes `'\''`.
pub open spec fn quote_char(c: char) -> Seq<char> {
    if c == '\'' {
        seq!['\'', '\\', '\'', '\'']
    } else {
        seq![c]
    }
}

/// `cs` with every single quote written as `'\''`.
pub open spec fn quoted_body(cs: Seq<char>) -> Seq<char>
    decreases cs.len(),
{
    if cs.len() == 0 {
        Seq::empty()
    } else {
        quoted_body(cs.drop_last()) + quote_char(cs.last())
    }
}

/// `cs` as one shell word: unchanged when every character is plain, otherwise
/// in single quotes with each single quote written as `'\''`.
pub open spec fn shell_escaped(cs: Seq<char>) -> Seq<char> {
    if forall|i: int| 0 <= i < cs.len() ==> plain_char(#[trigger] cs[i]) {
        cs
    } else {
        seq!['\''] + quoted_body(cs) + seq!['\'']
    }
}

fn is_plain(c: char) -> (r: bool)
    ensures
        r == plain_char(c),
{
    (c >= 'a' && c <= 'z') || (c >= 'A' && c <= 'Z') || (c >= '0' && c <= '9') || c == '/' || c
        == '_' || c == '.' || c == '-' || c == '~' || c == '=' || c == ':'
}

/// Quotes `s` as one word for the remote shell: see [`shell_escaped`].
pub fn shell_escape(s: &str) -> (res: String)
    ensures
        res@ == shell_escaped(s@),
{
    let cs = chars_of(s);
    let mut all_plain = true;
    let mut i: usize = 0;
    while i < cs.len()
        invariant
            i <= cs@.len(),
            all_plain == forall|j: int| 0 <= j < i ==> plain_char(#[trigger] cs@[j]),
        decreases cs@.len() - i,
    {
        if !is_plain(cs[i]) {
            all_plain = false;
        }
        i = i + 1;
    }
    if all_plain {
        return s.to_owned();
    }
    let mut out = String::new();
    push_char(&mut out, '\'');
    let mut k: usize = 0;
    while k < cs.len()
        invariant
            k <= cs@.len(),
            out@ == seq!['\''] + quoted_body(cs@.take(k as int)),
        decreases cs@.len() - k,
    {
        let c = cs[k];
        assert(cs@.take(k + 1).drop_last() =~= cs@.take(k as int));
        let ghost before = out@;
        if c == '\'' {
            push_char(&mut out, '\'');
            push_char(&mut out, '\\');
            push_char(&mut out, '\'');
            push_char(&mut out, '\'');
        } else {
            push_char(&mut out, c);
        }
        assert(out@ =~= before + quote_char(c));
        k = k + 1;
    }
    assert(cs@.take(k as int) =~= cs@);
    push_char(&mut out, '\'');
    out
}

/// Where the POSIX shell stands while it reads a word: outside quotes, inside
/// single quotes, just after a backslash, or at a character this reading does
/// not take as part of a plain word.
pub enum ShMode {
    Bare,
    Quoted,
    Escaped,
    Rejected,
}

/// One character read by the shell from the state `st` (mode, word so far).
/// Outside quotes a single quote opens quoting, a backslash makes the next
/// character literal and a plain character joins the word; any other
/// character (a blank, an operator, `$`, a backquote, a glob character, ...)
/// is one that may split the word or expand, and is rejected. Inside single
/// quotes every character but the closing quote is literal. A backslash
/// before a newline continues the line and is rejected too.
pub open spec fn sh_step(st: (ShMode, Seq<char>), c: char) -> (ShMode, Seq<char>) {
    let w = st.1;
    match st.0 {
        ShMode::Bare => if c == '\'' {
            (ShMode::Quoted, w)
        } else if c == '\\' {
            (ShMode::Escaped, w)
        } else if plain_char(c) {
            (ShMode::Bare, w.push(c))
        } else {
            (ShMode::Rejected, w)
        },
        ShMode::Quoted => if c == '\'' {
            (ShMode::Bare, w)
        } else {
            (ShMode::Quoted, w.push(c))
        },
        ShMode::Escaped => if c == '\n' {
            (ShMode::Rejected, w)
        } else {
            (ShMode::Bare, w.push(c))
        },
        ShMode::Rejected => (ShMode::Rejected, w),
    }
}

/// The state after reading `t` from `st`.
pub open spec fn sh_run(st: (ShMode, Seq<char>), t: Seq<char>) -> (ShMode, Seq<char>)
    decreases t.len(),
{
    if t.len() == 0 {
        st
    } else {
        sh_step(sh_run(st, t.drop_last()), t.last())
    }
}

/// The one word the shell reads from `t`, with nothing expanded, split or
/// globbed, when `t` is such a word made of plain characters, backslash
/// escapes and single-quoted parts, does not start with an unquoted tilde
/// (which the shell would expand) and leaves no quote open; `None` otherwise.
pub open spec fn sh_word(t: Seq<char>) -> Option<Seq<char>> {
    let st = sh_run((ShMode::Bare, Seq::empty()), t);
    if t.len() > 0 && t[0] != '~' && st.0 is Bare {
        Some(st.1)
    } else {
        None
    }
}

proof fn lemma_sh_run_append(st: (ShMode, Seq<char>), a: Seq<char>, b: Seq<char>)
    ensures
        sh_run(st, a + b) == sh_run(sh_run(st, a), b),
    decreases b.len(),
{
    if b.len() == 0 {
        assert(a + b =~= a);
    } else {
        assert((a + b).drop_last() =~= a + b.drop_last());
        assert((a + b).last() == b.last());
        lemma_sh_run_append(st, a, b.drop_last());
    }
}

proof fn lemma_sh_run_plain(w: Seq<char>, cs: Seq<char>)
    requires
        forall|i: int| 0 <= i < cs.len() ==> plain_char(#[trigger] cs[i]),
    ensures
        sh_run((ShMode::Bare, w), cs) == (ShMode::Bare, w + cs),
    decreases cs.len(),
{
    if cs.len() == 0 {
        assert(w + cs =~= w);
    } else {
        lemma_sh_run_plain(w, cs.drop_last());
        assert(plain_char(cs[cs.len() - 1]));
        assert((w + cs.drop_last()).push(cs.last()) =~= w + cs);
    }
}

proof fn lemma_sh_run_quoted_body(w: Seq<char>, cs: Seq<char>)
    ensures
        sh_run((ShMode::Quoted, w), quoted_body(cs)) == (ShMode::Quoted, w + cs),
    decreases cs.len(),
{
    if cs.len() == 0 {
        assert(w + cs =~= w);
    } else {
        let c = cs.last();
        let w1 = w + cs.drop_last();
        lemma_sh_run_quoted_body(w, cs.drop_last());
        lemma_sh_run_append((ShMode::Quoted, w), quoted_body(cs.drop_last()), quote_char(c));
        assert(w1.push(c) =~= w + cs);
        if c == '\'' {
            let q = quote_char(c);
            reveal_with_fuel(sh_run, 5);
            assert(q.drop_last().drop_last().drop_last().drop_last() =~= Seq::<char>::empty());
            assert(q.drop_last().drop_last().drop_last() =~= seq!['\'']);
            assert(q.drop_last().drop_last() =~= seq!['\'', '\\']);
            assert(q.drop_last() =~= seq!['\'', '\\', '\'']);
        } else {
            reveal_with_fuel(sh_run, 2);
            assert(quote_char(c).drop_last() =~= Seq::<char>::empty());
        }
    }
}

/// The shell reads the quoted text back as the one word it was made from,
/// with nothing expanded, split or globbed: for every non-empty text except
/// plain text starting with `~`, which is left unquoted and so would be
/// tilde-expanded.
pub proof fn lemma_shell_escaped_reads_back(cs: Seq<char>)
    requires
        cs.len() > 0,
        cs[0] == '~' ==> exists|i: int| 0 <= i < cs.len() && !plain_char(#[trigger] cs[i]),
    ensures
        sh_word(shell_escaped(cs)) == Some(cs),
{
    let start = (ShMode::Bare, Seq::<char>::empty());
    if forall|i: int| 0 <= i < cs.len() ==> plain_char(#[trigger] cs[i]) {
        lemma_sh_run_plain(Seq::empty(), cs);
        assert(Seq::<char>::empty() + cs =~= cs);
    } else {
        let open = seq!['\''];
        let t = open + quoted_body(cs) + seq!['\''];
        lemma_sh_run_append(start, open + quoted_body(cs), seq!['\'']);
        lemma_sh_run_append(start, open, quoted_body(cs));
        reveal_with_fuel(sh_run, 2);
        assert(open.drop_last() =~= Seq::<char>::empty());
        assert(sh_run(start, open) == (ShMode::Quoted, Seq::<char>::empty()));
        lemma_sh_run_quoted_body(Seq::empty(), cs);
        assert(Seq::<char>::empty() + cs =~= cs);
        assert(seq!['\''].drop_last() =~= Seq::<char>::empty());
        assert(t[0] == '\'');
    }
}

/// The command that runs the scanner on the remote host.
pub open spec fn build_cmd_text(scanner_path: Seq<char>, remote_path: Seq<char>, sudo: bool, one_filesystem: bool) -> Seq<char> {
    (if sudo {
        "sudo "@
    } else {
        Seq::empty()
    }) + shell_escaped(scanner_path) + seq![' '] + shell_escaped(remote_path) + (if one_filesystem {
        " --one-filesystem"@
    } else {
        Seq::empty()
    })
}

/// The remote command line: optional `sudo`, the quoted scanner path, the
/// quoted path to scan, and `--one-filesystem` when asked for.
pub fn build_cmd(scanner_path: &str, remote_path: &str, sudo: bool, one_filesystem: bool) -> (res: String)
    ensures
        res@ == build_cmd_text(scanner_path@, remote_path@, sudo, one_filesystem),
{
    let mut out = String::new();
    if sudo {
        out.append("sudo ");
    }
    let a = shell_escape(scanner_path);
    out.append(a.as_str());
    push_char(&mut out, ' ');
    let b = shell_escape(remote_path);
    out.append(b.as_str());
    if one_filesystem {
        out.append(" --one-filesystem");
    }
    assert(out@ =~= build_cmd_text(scanner_path@, remote_path@, sudo, one_filesystem));
    out
}

/// The remote command that reports the architecture and the installed
/// scanner's build (`build=missing` when there is none).
pub open spec fn version_check_text(scanner_path: Seq<char>) -> Seq<char> {
    "uname -m; "@ + shell_escaped(scanner_path) + " --wire-version 2>/dev/null || echo 'build=missing'"@
}

/// `uname -m; <scanner> --wire-version 2>/dev/null || echo 'build=missing'`,
/// with the scanner path quoted.
pub fn version_check_cmd(scanner_path: &str) -> (res: String)
    ensures
        res@ == version_check_text(scanner_path@),
{
    let mut out = String::new();
    out.append("uname -m; ");
    let p = shell_escape(scanner_path);
    out.append(p.as_str());
    out.append(" --wire-version 2>/dev/null || echo 'build=missing'");
    out
}

/// The remote command that stores the scanner read from standard input at
/// its path and makes it executable, creating its directory first.
pub open spec fn upload_text(scanner_path: Seq<char>) -> Seq<char> {
    let p = shell_escaped(scanner_path);
    "mkdir -p $(dirname "@ + p + ") && cat > "@ + p + " && chmod +x "@ + p
}

/// `mkdir -p $(dirname <p>) && cat > <p> && chmod +x <p>`, with `<p>` the
/// quoted scanner path.
pub fn upload_cmd(scanner_path: &str) -> (res: String)
    ensures
        res@ == upload_text(scanner_path@),
{
    let p = shell_escape(scanner_path);
    let mut out = String::new();
    out.append("mkdir -p $(dirname ");
    out.append(p.as_str());
    out.append(") && cat > ");
    out.append(p.as_str());
    out.append(" && chmod +x ");
    out.append(p.as_str());
    out
}

/// The remote command that creates `dir` and its parents.
pub open spec fn mkdir_text(dir: Seq<char>) -> Seq<char> {
    "mkdir -p "@ + shell_escaped(dir)
}

/// `mkdir -p <dir>`, with the directory quoted.
pub fn mkdir_cmd(dir: &str) -> (res: String)
    ensures
        res@ == mkdir_text(dir@),
{
    let mut out = String::new();
    out.append("mkdir -p ");
    let d = shell_escape(dir);
    out.append(d.as_str());
    out
}

/// Every character of `cs` is plain: the shell takes it as it stands.
pub open spec fn all_plain(cs: Seq<char>) -> bool {
    forall|i: int| 0 <= i < cs.len() ==> plain_char(#[trigger] cs[i])
}

/// `w` is a right way to write the text `cs` as one word of a command: the
/// text itself when all of it is plain (so a leading `~` is expanded by the
/// shell, as in any plain word), and otherwise a word the shell reads back as
/// exactly `cs`, with nothing expanded, split or globbed.
pub open spec fn word_for(w: Seq<char>, cs: Seq<char>) -> bool {
    &&& all_plain(cs) ==> w == cs
    &&& !all_plain(cs) ==> sh_word(w) == Some(cs)
}

/// The quoting gives a right word for every text.
pub proof fn lemma_shell_escaped_is_word_for(cs: Seq<char>)
    ensures
        word_for(shell_escaped(cs), cs),
{
    if !all_plain(cs) {
        let i = choose|i: int| 0 <= i < cs.len() && !plain_char(#[trigger] cs[i]);
        assert(!plain_char(cs[i]));
        lemma_shell_escaped_reads_back(cs);
    }
}

/// The scan command is `sudo ` when asked for, then a right word for the
/// scanner path, a blank, a right word for the path to scan, and
/// ` --one-filesystem` when asked for; the path to scan is written the same
/// way whatever the flags.
pub proof fn lemma_build_cmd_words(scanner_path: Seq<char>, remote_path: Seq<char>, sudo: bool, one_filesystem: bool)
    ensures
        exists|w1: Seq<char>, w2: Seq<char>|
            #![trigger word_for(w1, scanner_path), word_for(w2, remote_path)]
            {
                &&& word_for(w1, scanner_path)
                &&& word_for(w2, remote_path)
                &&& build_cmd_text(scanner_path, remote_path, sudo, one_filesystem) == (if sudo {
                    "sudo "@
                } else {
                    Seq::empty()
                }) + w1 + seq![' '] + w2 + (if one_filesystem {
                    " --one-filesystem"@
                } else {
                    Seq::empty()
                })
            },
{
    lemma_shell_escaped_is_word_for(scanner_path);
    lemma_shell_escaped_is_word_for(remote_path);
}

/// The version check, the upload and the scan of `remote_path` all write the
/// scanner path as the same right word: the upload stores the scanner
/// exactly where the check looks for it and the scan runs it.
pub proof fn lemma_remote_commands_share_scanner_word(scanner_path: Seq<char>, remote_path: Seq<char>)
    ensures
        exists|w: Seq<char>|
            #![trigger word_for(w, scanner_path)]
            {
                &&& word_for(w, scanner_path)
                &&& version_check_text(scanner_path) == "uname -m; "@ + w
                    + " --wire-version 2>/dev/null || echo 'build=missing'"@
                &&& upload_text(scanner_path) == "mkdir -p $(dirname "@ + w + ") && cat > "@ + w
                    + " && chmod +x "@ + w
                &&& build_cmd_text(scanner_path, remote_path, false, false).take(w.len() as int) == w
            },
{
    let w = shell_escaped(scanner_path);
    lemma_shell_escaped_is_word_for(scanner_path);
    assert(build_cmd_text(scanner_path, remote_path, false, false).take(w.len() as int) =~= w);
}

/// The directory-creation command is `mkdir -p ` and a right word for the
/// directory.
pub proof fn lemma_mkdir_word(dir: Seq<char>)
    ensures
        exists|w: Seq<char>| #[trigger] word_for(w, dir) && mkdir_text(dir) == "mkdir -p "@ + w,
{
    lemma_shell_escaped_is_word_for(dir);
}

} // verus!
