//! How a POSIX shell splits the commands this library writes into words, and
//! the laws that the quoting keeps: every value arrives as one word, unchanged.
use vstd::prelude::*;

use crate::remote::{
    check_script_command_text, inspect_command_text, quote_escaped, shell_path_expr, shell_quoted,
    staged_path, store_link_text, INSPECT_SCRIPT,
};
use crate::text::has_prefix;

verus! {

/// Characters that a shell takes literally outside quotes, in any position of
/// a word after the command name.
pub open spec fn plain_char(c: char) -> bool {
    ('a' <= c && c <= 'z') || ('A' <= c && c <= 'Z') || ('0' <= c && c <= '9') || c == '-' || c
        == '_' || c == '.' || c == '/' || c == ':' || c == '@' || c == '+' || c == ',' || c == '%'
        || c == '='
}

/// The double-quoted expansion of the home directory.
pub open spec fn home_word() -> Seq<char> {
    seq!['"', '$', 'H', 'O', 'M', 'E', '"']
}

/// The text gathered so far for the word being read.
pub open spec fn so_far(cur: Option<Seq<char>>) -> Seq<char> {
    match cur {
        Some(w) => w,
        None => Seq::<char>::empty(),
    }
}

/// The word `w` in front of the words read after it.
pub open spec fn then_word(w: Seq<char>, rest: Option<Seq<Seq<char>>>) -> Option<Seq<Seq<char>>> {
    match rest {
        Some(ws) => Some(seq![w] + ws),
        None => None,
    }
}

/// Where the reader stands: outside quotes, or inside single or double quotes.
pub enum Quoting {
    Bare,
    Single,
    Double,
}

/// Characters that continue a parameter name.
pub open spec fn name_char(c: char) -> bool {
    ('a' <= c && c <= 'z') || ('A' <= c && c <= 'Z') || ('0' <= c && c <= '9') || c == '_'
}

/// The expansion `$HOME`.
pub open spec fn dollar_home() -> Seq<char> {
    seq!['$', 'H', 'O', 'M', 'E']
}

/// The words that a POSIX shell reads from `s`, with `$HOME` set to `home`,
/// for text made of plain characters, blanks between words, single-quoted
/// text, backslash escapes, and double-quoted text of plain characters and
/// `$HOME`; `None` for any other shell syntax, or an unterminated quote. `q`
/// says where the reader stands, and `cur` holds the word being read, if any.
pub open spec fn read_words(s: Seq<char>, home: Seq<char>, q: Quoting, cur: Option<Seq<char>>) -> Option<
    Seq<Seq<char>>,
>
    decreases s.len(),
{
    if s.len() == 0 {
        match q {
            Quoting::Bare => match cur {
                Some(w) => Some(seq![w]),
                None => Some(Seq::<Seq<char>>::empty()),
            },
            _ => None,
        }
    } else {
        match q {
            Quoting::Single => if s[0] == '\'' {
                read_words(s.skip(1), home, Quoting::Bare, cur)
            } else {
                read_words(s.skip(1), home, Quoting::Single, Some(so_far(cur).push(s[0])))
            },
            Quoting::Double => if s[0] == '"' {
                read_words(s.skip(1), home, Quoting::Bare, cur)
            } else if has_prefix(s, dollar_home()) && (s.len() == 5 || !name_char(s[5])) {
                read_words(s.skip(5), home, Quoting::Double, Some(so_far(cur) + home))
            } else if plain_char(s[0]) {
                read_words(s.skip(1), home, Quoting::Double, Some(so_far(cur).push(s[0])))
            } else {
                None
            },
            Quoting::Bare => if s[0] == ' ' {
                match cur {
                    Some(w) => then_word(w, read_words(s.skip(1), home, Quoting::Bare, None)),
                    None => read_words(s.skip(1), home, Quoting::Bare, None),
                }
            } else if s[0] == '\'' {
                read_words(s.skip(1), home, Quoting::Single, Some(so_far(cur)))
            } else if s[0] == '"' {
                read_words(s.skip(1), home, Quoting::Double, Some(so_far(cur)))
            } else if s[0] == '\\' && s.len() >= 2 && s[1] != '\n' {
                read_words(s.skip(2), home, Quoting::Bare, Some(so_far(cur).push(s[1])))
            } else if plain_char(s[0]) {
                read_words(s.skip(1), home, Quoting::Bare, Some(so_far(cur).push(s[0])))
            } else {
                None
            },
        }
    }
}

/// The words of the command line `s`, with `$HOME` set to `home`.
pub open spec fn shell_words(s: Seq<char>, home: Seq<char>) -> Option<Seq<Seq<char>>> {
    read_words(s, home, Quoting::Bare, None)
}

/// A remote path with a leading `~` replaced by the home directory.
pub open spec fn home_expanded(path: Seq<char>, home: Seq<char>) -> Seq<char> {
    if path == seq!['~'] {
        home
    } else if has_prefix(path, seq!['~', '/']) {
        home + path.subrange(1, path.len() as int)
    } else {
        path
    }
}

proof fn lemma_escaped_concat(a: Seq<char>, b: Seq<char>)
    ensures
        quote_escaped(a + b) == quote_escaped(a) + quote_escaped(b),
    decreases b.len(),
{
    if b.len() == 0 {
        assert(a + b =~= a);
        assert(quote_escaped(a) + quote_escaped(b) =~= quote_escaped(a));
    } else {
        lemma_escaped_concat(a, b.drop_last());
        assert((a + b).drop_last() =~= a + b.drop_last());
        assert((a + b).last() == b.last());
        if b.last() == '\'' {
            assert(quote_escaped(a) + quote_escaped(b) =~= quote_escaped(a) + quote_escaped(
                b.drop_last(),
            ) + seq!['\'', '\\', '\'', '\'']);
        } else {
            assert(quote_escaped(a) + quote_escaped(b) =~= (quote_escaped(a) + quote_escaped(
                b.drop_last(),
            )).push(b.last()));
        }
    }
}

/// Inside single quotes, the escaped text and the closing quote add `s` to the
/// word being read.
proof fn lemma_quoted_body(s: Seq<char>, rest: Seq<char>, home: Seq<char>, w: Seq<char>)
    ensures
        read_words(quote_escaped(s) + seq!['\''] + rest, home, Quoting::Single, Some(w)) == read_words(
            rest,
            home,
            Quoting::Bare,
            Some(w + s),
        ),
    decreases s.len(),
{
    if s.len() == 0 {
        assert(quote_escaped(s) =~= Seq::<char>::empty());
        let t = quote_escaped(s) + seq!['\''] + rest;
        assert(t.skip(1) =~= rest);
        assert(w + s =~= w);
        assert(read_words(t, home, Quoting::Single, Some(w)) == read_words(rest, home, Quoting::Bare, Some(w)));
    } else {
        let c = s[0];
        let tail = s.skip(1);
        assert(s =~= seq![c] + tail);
        lemma_escaped_concat(seq![c], tail);
        assert(seq![c].drop_last() =~= Seq::<char>::empty());
        assert(quote_escaped(Seq::<char>::empty()) =~= Seq::<char>::empty());
        lemma_quoted_body(tail, rest, home, w.push(c));
        assert(w.push(c) + tail =~= w + s);
        let after = quote_escaped(tail) + seq!['\''] + rest;
        if c == '\'' {
            assert(quote_escaped(seq![c]) =~= seq!['\'', '\\', '\'', '\'']);
            let t = quote_escaped(s) + seq!['\''] + rest;
            assert(t =~= seq!['\'', '\\', '\'', '\''] + after);
            let t1 = t.skip(1);
            assert(t1 =~= seq!['\\', '\'', '\''] + after);
            assert(t1[0] == '\\' && t1[1] == '\'');
            let t2 = t1.skip(2);
            assert(t2 =~= seq!['\''] + after);
            assert(t2.skip(1) =~= after);
            assert(so_far(Some(w.push('\''))) == w.push(c));
            assert(read_words(t, home, Quoting::Single, Some(w)) == read_words(t1, home, Quoting::Bare, Some(w)));
            assert(read_words(t1, home, Quoting::Bare, Some(w)) == read_words(t2, home, Quoting::Bare, Some(w.push(c))));
            assert(read_words(t2, home, Quoting::Bare, Some(w.push(c))) == read_words(after, home, Quoting::Single, Some(w.push(c))));
        } else {
            assert(quote_escaped(seq![c]) =~= seq![c]);
            let t = quote_escaped(s) + seq!['\''] + rest;
            assert(t =~= seq![c] + after);
            assert(t.skip(1) =~= after);
            assert(read_words(t, home, Quoting::Single, Some(w)) == read_words(after, home, Quoting::Single, Some(w.push(c))));
        }
    }
}

/// A single-quoted value adds itself, unchanged, to the word being read.
pub proof fn lemma_quoted_piece(s: Seq<char>, rest: Seq<char>, home: Seq<char>, cur: Option<Seq<char>>)
    ensures
        read_words(shell_quoted(s) + rest, home, Quoting::Bare, cur) == read_words(
            rest,
            home,
            Quoting::Bare,
            Some(so_far(cur) + s),
        ),
{
    let t = shell_quoted(s) + rest;
    assert(t =~= seq!['\''] + (quote_escaped(s) + seq!['\''] + rest));
    assert(t.skip(1) =~= quote_escaped(s) + seq!['\''] + rest);
    lemma_quoted_body(s, rest, home, so_far(cur));
}

/// The shell reads a quoted value back as one word, unchanged, whatever the
/// value holds.
pub proof fn lemma_shell_quote_reads_back(s: Seq<char>, home: Seq<char>)
    ensures
        shell_words(shell_quoted(s), home) == Some(seq![s]),
{
    lemma_quoted_piece(s, Seq::<char>::empty(), home, None);
    assert(shell_quoted(s) + Seq::<char>::empty() =~= shell_quoted(s));
    assert(so_far(None) + s =~= s);
}

/// The words `ws` in front of the words read after them.
pub open spec fn then_words(ws: Seq<Seq<char>>, rest: Option<Seq<Seq<char>>>) -> Option<Seq<Seq<char>>> {
    match rest {
        Some(more) => Some(ws + more),
        None => None,
    }
}

/// The words `ws`, each followed by a blank.
pub open spec fn spaced(ws: Seq<Seq<char>>) -> Seq<char>
    decreases ws.len(),
{
    if ws.len() == 0 {
        Seq::<char>::empty()
    } else {
        ws[0] + seq![' '] + spaced(ws.skip(1))
    }
}

/// Whether every character of `w` is plain.
pub open spec fn plain_text(w: Seq<char>) -> bool {
    forall|i: int| 0 <= i < w.len() ==> plain_char(#[trigger] w[i])
}

/// Plain characters add themselves to the word being read, inside double
/// quotes or outside quotes.
proof fn lemma_plain_piece(p: Seq<char>, rest: Seq<char>, home: Seq<char>, q: Quoting, w: Seq<char>)
    requires
        plain_text(p),
        !(q is Single),
    ensures
        read_words(p + rest, home, q, Some(w)) == read_words(rest, home, q, Some(w + p)),
    decreases p.len(),
{
    if p.len() == 0 {
        assert(p + rest =~= rest);
        assert(w + p =~= w);
    } else {
        let t = p + rest;
        assert(t[0] == p[0]);
        assert(plain_char(p[0]));
        assert(!has_prefix(t, dollar_home())) by {
            if has_prefix(t, dollar_home()) {
                assert(t.subrange(0, 5)[0] == t[0]);
            }
        }
        assert(t.skip(1) =~= p.skip(1) + rest);
        assert(plain_text(p.skip(1))) by {
            assert forall|i: int| 0 <= i < p.skip(1).len() implies plain_char(#[trigger] p.skip(1)[i]) by {
                assert(p.skip(1)[i] == p[i + 1]);
            }
        }
        lemma_plain_piece(p.skip(1), rest, home, q, w.push(p[0]));
        assert(w.push(p[0]) + p.skip(1) =~= w + p);
        assert(read_words(t, home, q, Some(w)) == read_words(t.skip(1), home, q, Some(w.push(p[0]))));
    }
}

/// A word of plain characters starts a word, or adds to the one being read.
proof fn lemma_plain_word(p: Seq<char>, rest: Seq<char>, home: Seq<char>, cur: Option<Seq<char>>)
    requires
        plain_text(p),
        p.len() > 0,
    ensures
        read_words(p + rest, home, Quoting::Bare, cur) == read_words(rest, home, Quoting::Bare, Some(so_far(cur) + p)),
{
    let t = p + rest;
    assert(t[0] == p[0]);
    assert(plain_char(p[0]));
    assert(t.skip(1) =~= p.skip(1) + rest);
    assert(plain_text(p.skip(1))) by {
        assert forall|i: int| 0 <= i < p.skip(1).len() implies plain_char(#[trigger] p.skip(1)[i]) by {
            assert(p.skip(1)[i] == p[i + 1]);
        }
    }
    lemma_plain_piece(p.skip(1), rest, home, Quoting::Bare, so_far(cur).push(p[0]));
    assert(so_far(cur).push(p[0]) + p.skip(1) =~= so_far(cur) + p);
    assert(read_words(t, home, Quoting::Bare, cur) == read_words(t.skip(1), home, Quoting::Bare, Some(so_far(cur).push(p[0]))));
}

/// A blank ends the word being read.
proof fn lemma_blank(rest: Seq<char>, home: Seq<char>, w: Seq<char>)
    ensures
        read_words(seq![' '] + rest, home, Quoting::Bare, Some(w)) == then_word(w, read_words(rest, home, Quoting::Bare, None)),
{
    let t = seq![' '] + rest;
    assert(t.skip(1) =~= rest);
}

/// The end of the text ends the word being read.
proof fn lemma_end(home: Seq<char>, w: Seq<char>)
    ensures
        read_words(Seq::<char>::empty(), home, Quoting::Bare, Some(w)) == Some(seq![w]),
{
}

/// `$HOME` inside double quotes, before a character that does not continue a
/// name, adds the home directory to the word being read.
proof fn lemma_dollar_home(rest: Seq<char>, home: Seq<char>, w: Seq<char>)
    requires
        rest.len() == 0 || !name_char(rest[0]),
    ensures
        read_words(dollar_home() + rest, home, Quoting::Double, Some(w)) == read_words(
            rest,
            home,
            Quoting::Double,
            Some(w + home),
        ),
{
    let t = dollar_home() + rest;
    assert(t.subrange(0, 5) =~= dollar_home());
    assert(t.skip(5) =~= rest);
    if rest.len() > 0 {
        assert(t[5] == rest[0]);
    }
}

/// `"$HOME"` adds the home directory to the word being read.
proof fn lemma_home_piece(rest: Seq<char>, home: Seq<char>, cur: Option<Seq<char>>)
    ensures
        read_words(home_word() + rest, home, Quoting::Bare, cur) == read_words(rest, home, Quoting::Bare, Some(so_far(cur) + home)),
{
    let t = home_word() + rest;
    let t1 = dollar_home() + (seq!['"'] + rest);
    assert(t.skip(1) =~= t1);
    lemma_dollar_home(seq!['"'] + rest, home, so_far(cur));
    assert((seq!['"'] + rest).skip(1) =~= rest);
}

/// Plain words, each followed by a blank, read as those words.
proof fn lemma_spaced(ws: Seq<Seq<char>>, rest: Seq<char>, home: Seq<char>)
    requires
        forall|i: int| 0 <= i < ws.len() ==> plain_text(#[trigger] ws[i]) && ws[i].len() > 0,
    ensures
        read_words(spaced(ws) + rest, home, Quoting::Bare, None) == then_words(ws, read_words(rest, home, Quoting::Bare, None)),
    decreases ws.len(),
{
    if ws.len() == 0 {
        assert(spaced(ws) + rest =~= rest);
        match read_words(rest, home, Quoting::Bare, None) {
            Some(more) => {
                assert(ws + more =~= more);
            },
            None => {},
        }
    } else {
        let w = ws[0];
        let tail = ws.skip(1);
        assert(forall|i: int| 0 <= i < tail.len() ==> #[trigger] tail[i] == ws[i + 1]);
        lemma_spaced(tail, rest, home);
        assert(plain_text(ws[0]) && ws[0].len() > 0);
        let after = spaced(tail) + rest;
        assert(spaced(ws) + rest =~= w + (seq![' '] + after));
        lemma_plain_word(w, seq![' '] + after, home, None);
        assert(so_far(None) + w =~= w);
        lemma_blank(after, home, w);
        match read_words(rest, home, Quoting::Bare, None) {
            Some(more) => {
                assert(seq![w] + (tail + more) =~= ws + more);
            },
            None => {},
        }
    }
}

/// The shell reads a remote path written by `shell_path` as one word: the path
/// with a leading `~` replaced by the home directory.
pub proof fn lemma_shell_path_reads_back(path: Seq<char>, home: Seq<char>)
    ensures
        shell_words(shell_path_expr(path), home) == Some(seq![home_expanded(path, home)]),
{
    if path == seq!['~'] {
        lemma_home_piece(Seq::<char>::empty(), home, None);
        assert(home_word() + Seq::<char>::empty() =~= home_word());
        assert(so_far(None) + home =~= home);
    } else if has_prefix(path, seq!['~', '/']) {
        let rest = path.subrange(2, path.len() as int);
        let text = home_word() + seq!['/'] + shell_quoted(rest);
        assert(shell_path_expr(path) =~= text);
        assert(text =~= home_word() + (seq!['/'] + (shell_quoted(rest) + Seq::<char>::empty())));
        lemma_home_piece(seq!['/'] + (shell_quoted(rest) + Seq::<char>::empty()), home, None);
        assert(so_far(None) + home =~= home);
        assert(plain_text(seq!['/']));
        lemma_plain_piece(seq!['/'], shell_quoted(rest) + Seq::<char>::empty(), home, Quoting::Bare, home);
        lemma_quoted_piece(rest, Seq::<char>::empty(), home, Some(home + seq!['/']));
        assert(path.subrange(0, 2) =~= seq!['~', '/']);
        assert(home + seq!['/'] + rest =~= home + path.subrange(1, path.len() as int));
    } else {
        lemma_shell_quote_reads_back(path, home);
    }
}

/// A `bash -c` command reads as `bash`, `-c` and the script, unchanged.
pub proof fn lemma_bash_command_words(script: Seq<char>, home: Seq<char>)
    ensures
        shell_words("bash -c "@ + shell_quoted(script), home) == Some(
            seq!["bash"@, "-c"@, script],
        ),
{
    reveal_strlit("bash -c ");
    reveal_strlit("bash");
    reveal_strlit("-c");
    let ws = seq!["bash"@, "-c"@];
    assert(spaced(ws.skip(1).skip(1)) =~= Seq::<char>::empty());
    assert(spaced(ws.skip(1)) =~= "-c"@ + seq![' ']);
    assert(spaced(ws) =~= "bash -c "@);
    assert(plain_text("bash"@));
    assert(plain_text("-c"@));
    lemma_spaced(ws, shell_quoted(script), home);
    lemma_quoted_piece(script, Seq::<char>::empty(), home, None);
    assert(shell_quoted(script) + Seq::<char>::empty() =~= shell_quoted(script));
    assert(so_far(None) + script =~= script);
    assert(ws + seq![script] =~= seq!["bash"@, "-c"@, script]);
}

/// The inspect command reads as `bash -c`, the inspect script, `--`, the path
/// unchanged, and the privilege flag.
pub proof fn lemma_inspect_command_words(path: Seq<char>, privileged: bool, home: Seq<char>)
    ensures
        shell_words(inspect_command_text(path, privileged), home) == Some(
            seq![
                "bash"@,
                "-c"@,
                INSPECT_SCRIPT@,
                "--"@,
                path,
                if privileged {
                    "1"@
                } else {
                    "0"@
                },
            ],
        ),
{
    reveal_strlit("bash -c ");
    reveal_strlit("bash");
    reveal_strlit("-c");
    reveal_strlit(" -- ");
    reveal_strlit("--");
    reveal_strlit(" ");
    reveal_strlit("1");
    reveal_strlit("0");
    let flag = if privileged {
        "1"@
    } else {
        "0"@
    };
    let script = INSPECT_SCRIPT@;
    let ws1 = seq!["bash"@, "-c"@];
    let ws2 = seq!["--"@];
    assert(spaced(ws1.skip(1).skip(1)) =~= Seq::<char>::empty());
    assert(spaced(ws1.skip(1)) =~= "-c"@ + seq![' ']);
    assert(spaced(ws1) =~= "bash -c "@);
    assert(spaced(ws2.skip(1)) =~= Seq::<char>::empty());
    assert(spaced(ws2) =~= "--"@ + seq![' ']);
    assert(plain_text("bash"@));
    assert(plain_text("-c"@));
    assert(plain_text("--"@));
    assert(plain_text(flag));
    let f = flag + Seq::<char>::empty();
    let e = seq![' '] + f;
    let d = shell_quoted(path) + e;
    let c = spaced(ws2) + d;
    let b = seq![' '] + c;
    let a = shell_quoted(script) + b;
    assert(inspect_command_text(path, privileged) =~= spaced(ws1) + a);
    lemma_spaced(ws1, a, home);
    lemma_quoted_piece(script, b, home, None);
    assert(so_far(None) + script =~= script);
    lemma_blank(c, home, script);
    lemma_spaced(ws2, d, home);
    lemma_quoted_piece(path, e, home, None);
    assert(so_far(None) + path =~= path);
    lemma_blank(f, home, path);
    lemma_plain_word(flag, Seq::<char>::empty(), home, None);
    assert(so_far(None) + flag =~= flag);
    assert(ws1 + seq![script] + (ws2 + seq![path] + seq![flag]) =~= seq![
        "bash"@,
        "-c"@,
        script,
        "--"@,
        path,
        flag,
    ]);
    assert(ws1 + (seq![script] + (ws2 + (seq![path] + seq![flag])))
        =~= ws1 + seq![script] + (ws2 + seq![path] + seq![flag]));
}

/// The words in front of a command that runs under `sudo`, if it does.
pub open spec fn sudo_words(privileged: bool) -> Seq<Seq<char>> {
    if privileged {
        seq!["sudo"@, "-n"@, "--"@]
    } else {
        Seq::<Seq<char>>::empty()
    }
}

/// The check command reads as `timeout` with its options, the time limit
/// unchanged, and `bash -s -- check`, under `sudo` for a privileged script.
pub proof fn lemma_check_command_words(privileged: bool, timeout_seconds: u64, home: Seq<char>)
    ensures
        shell_words(check_script_command_text(privileged, timeout_seconds), home) == Some(
            sudo_words(privileged) + seq![
                "timeout"@,
                "--signal=TERM"@,
                "--kill-after=5s"@,
                crate::text::digits(timeout_seconds as nat, 10) + "s"@,
                "bash"@,
                "-s"@,
                "--"@,
                "check"@,
            ],
        ),
{
    reveal_strlit("sudo -n -- ");
    reveal_strlit("");
    reveal_strlit("timeout --signal=TERM --kill-after=5s ");
    reveal_strlit(" bash -s -- check");
    reveal_strlit("sudo");
    reveal_strlit("-n");
    reveal_strlit("--");
    reveal_strlit("timeout");
    reveal_strlit("--signal=TERM");
    reveal_strlit("--kill-after=5s");
    reveal_strlit("bash");
    reveal_strlit("-s");
    reveal_strlit("check");
    let limit = crate::text::digits(timeout_seconds as nat, 10) + "s"@;
    let ws1 = sudo_words(privileged) + seq!["timeout"@, "--signal=TERM"@, "--kill-after=5s"@];
    let ws2 = seq!["bash"@, "-s"@, "--"@];
    let last = "check"@;
    let prefix = if privileged {
        "sudo -n -- "@
    } else {
        ""@
    };
    assert forall|i: int| 0 <= i < ws1.len() implies plain_text(#[trigger] ws1[i]) && ws1[i].len() > 0 by {
        if privileged {
            assert(plain_text("sudo"@));
            assert(plain_text("-n"@));
            assert(plain_text("--"@));
        }
        assert(plain_text("timeout"@));
        assert(plain_text("--signal=TERM"@));
        assert(plain_text("--kill-after=5s"@));
    }
    assert forall|i: int| 0 <= i < ws2.len() implies plain_text(#[trigger] ws2[i]) && ws2[i].len() > 0 by {
        assert(plain_text("bash"@));
        assert(plain_text("-s"@));
        assert(plain_text("--"@));
    }
    assert(plain_text(last));
    let n = ws1.len();
    assert(forall|k: int| 0 <= k <= n ==> #[trigger] ws1.skip(k).len() == n - k);
    assert(spaced(ws1.skip(n as int)) =~= Seq::<char>::empty());
    assert(spaced(ws1.skip(n - 1)) =~= "--kill-after=5s"@ + seq![' ']) by {
        assert(ws1.skip(n - 1).skip(1) =~= ws1.skip(n as int));
    }
    assert(spaced(ws1.skip(n - 2)) =~= "--signal=TERM"@ + seq![' '] + "--kill-after=5s"@ + seq![' ']) by {
        assert(ws1.skip(n - 2).skip(1) =~= ws1.skip(n - 1));
    }
    assert(spaced(ws1.skip(n - 3)) =~= "timeout --signal=TERM --kill-after=5s "@) by {
        assert(ws1.skip(n - 3).skip(1) =~= ws1.skip(n - 2));
    }
    if privileged {
        assert(spaced(ws1.skip(2)) =~= "--"@ + seq![' '] + "timeout --signal=TERM --kill-after=5s "@) by {
            assert(ws1.skip(2).skip(1) =~= ws1.skip(3));
        }
        assert(spaced(ws1.skip(1)) =~= "-n"@ + seq![' '] + "--"@ + seq![' '] + "timeout --signal=TERM --kill-after=5s "@) by {
            assert(ws1.skip(1).skip(1) =~= ws1.skip(2));
        }
        assert(spaced(ws1) =~= prefix + "timeout --signal=TERM --kill-after=5s "@) by {
            assert(ws1.skip(1) =~= ws1.skip(1));
        }
    } else {
        assert(ws1.skip(0) =~= ws1);
        assert(spaced(ws1) =~= prefix + "timeout --signal=TERM --kill-after=5s "@);
    }
    assert(spaced(ws2.skip(3)) =~= Seq::<char>::empty());
    assert(spaced(ws2.skip(2)) =~= "--"@ + seq![' ']) by {
        assert(ws2.skip(2).skip(1) =~= ws2.skip(3));
    }
    assert(spaced(ws2.skip(1)) =~= "-s"@ + seq![' '] + "--"@ + seq![' ']) by {
        assert(ws2.skip(1).skip(1) =~= ws2.skip(2));
    }
    assert(spaced(ws2) =~= "bash"@ + seq![' '] + "-s"@ + seq![' '] + "--"@ + seq![' ']);
    let d = last + Seq::<char>::empty();
    let c = spaced(ws2) + d;
    let b = seq![' '] + c;
    assert(" bash -s -- check"@ =~= b);
    assert(check_script_command_text(privileged, timeout_seconds) =~= spaced(ws1) + (shell_quoted(limit) + b));
    lemma_spaced(ws1, shell_quoted(limit) + b, home);
    lemma_quoted_piece(limit, b, home, None);
    assert(so_far(None) + limit =~= limit);
    lemma_blank(c, home, limit);
    lemma_spaced(ws2, d, home);
    lemma_plain_word(last, Seq::<char>::empty(), home, None);
    assert(so_far(None) + last =~= last);
    assert(ws1 + (seq![limit] + (ws2 + seq![last])) =~= sudo_words(privileged) + seq![
        "timeout"@,
        "--signal=TERM"@,
        "--kill-after=5s"@,
        limit,
        "bash"@,
        "-s"@,
        "--"@,
        "check"@,
    ]);
}

proof fn lemma_decimal_plain(n: nat)
    ensures
        plain_text(crate::text::digits(n, 10)),
        crate::text::digits(n, 10).len() > 0,
    decreases n,
{
    let d = crate::text::digits(n, 10);
    if n < 10 {
        assert(d == seq![crate::text::digit_char(n)]);
        assert(plain_char(crate::text::digit_char(n)));
    } else {
        lemma_decimal_plain(n / 10);
        let high = crate::text::digits(n / 10, 10);
        assert(d == high.push(crate::text::digit_char(n % 10)));
        assert(plain_char(crate::text::digit_char(n % 10)));
        assert forall|i: int| 0 <= i < d.len() implies plain_char(#[trigger] d[i]) by {
            if i < high.len() {
                assert(d[i] == high[i]);
            }
        }
    }
}

/// Each file's link points at the copy that `stage_file` wrote: the link
/// target written in the transaction and the path in the stage command read
/// as the same word, for a digest of plain characters (as a hexadecimal digest
/// is).
pub proof fn lemma_link_points_at_staged_copy(digest: Seq<char>, index: nat, privileged: bool, home: Seq<char>)
    requires
        plain_text(digest),
    ensures
        shell_words(store_link_text(digest, index, privileged), home) == Some(
            seq![home_expanded(staged_path(digest, index, privileged), home)],
        ),
        shell_words(shell_path_expr(staged_path(digest, index, privileged)), home) == Some(
            seq![home_expanded(staged_path(digest, index, privileged), home)],
        ),
{
    let staged = staged_path(digest, index, privileged);
    lemma_shell_path_reads_back(staged, home);
    let d = crate::text::digits(index, 10);
    lemma_decimal_plain(index);
    reveal_strlit("/var/lib/stowaway/store/");
    reveal_strlit("/var/lib/stowaway/store");
    reveal_strlit("~/.local/share/stowaway/store");
    reveal_strlit("\"$HOME/.local/share/stowaway/store/");
    reveal_strlit("/.local/share/stowaway/store/");
    reveal_strlit("/");
    reveal_strlit("\"");
    if privileged {
        assert("/var/lib/stowaway/store/"@ + digest + "/"@ + d =~= staged);
        assert(staged[0] == '/');
        assert(!has_prefix(staged, seq!['~', '/'])) by {
            if has_prefix(staged, seq!['~', '/']) {
                assert(staged.subrange(0, 2)[0] == staged[0]);
            }
        }
        assert(staged != seq!['~']);
        lemma_shell_quote_reads_back(staged, home);
    } else {
        let p = "/.local/share/stowaway/store/"@;
        assert(plain_text(p));
        let r6 = seq!['"'] + Seq::<char>::empty();
        let r5 = d + r6;
        let r4 = seq!['/'] + r5;
        let r3 = digest + r4;
        let r2 = p + r3;
        let r1 = dollar_home() + r2;
        let link = seq!['"'] + r1;
        assert(store_link_text(digest, index, privileged) =~= link);
        assert(link.skip(1) =~= r1);
        assert(read_words(link, home, Quoting::Bare, None) == read_words(r1, home, Quoting::Double, Some(Seq::<char>::empty())));
        assert(r2[0] == '/');
        lemma_dollar_home(r2, home, Seq::<char>::empty());
        assert(Seq::<char>::empty() + home =~= home);
        lemma_plain_piece(p, r3, home, Quoting::Double, home);
        lemma_plain_piece(digest, r4, home, Quoting::Double, home + p);
        assert(plain_text(seq!['/']));
        lemma_plain_piece(seq!['/'], r5, home, Quoting::Double, home + p + digest);
        lemma_plain_piece(d, r6, home, Quoting::Double, home + p + digest + seq!['/']);
        let w = home + p + digest + seq!['/'] + d;
        assert(r6.skip(1) =~= Seq::<char>::empty());
        assert(r6[0] == '"');
        assert(read_words(r6, home, Quoting::Double, Some(w)) == read_words(
            Seq::<char>::empty(),
            home,
            Quoting::Bare,
            Some(w),
        ));
        lemma_end(home, w);
        assert(staged =~= "~/.local/share/stowaway/store"@ + "/"@ + digest + "/"@ + d);
        assert(staged.subrange(0, 2) =~= seq!['~', '/']);
        assert(staged.len() > 1);
        assert(home + staged.subrange(1, staged.len() as int) =~= w);
    }
}

/// Hexadecimal text, such as a content digest, is made of plain characters.
pub proof fn lemma_hex_is_plain(data: Seq<u8>)
    ensures
        plain_text(crate::external::hex_lower(data)),
    decreases data.len(),
{
    if data.len() > 0 {
        lemma_hex_is_plain(data.drop_last());
        let high = crate::external::hex_lower(data.drop_last());
        let a = crate::text::digit_char((data.last() / 16) as nat);
        let b = crate::text::digit_char((data.last() % 16) as nat);
        assert(plain_char(a));
        assert(plain_char(b));
        let all = crate::external::hex_lower(data);
        assert(all == high + seq![a, b]);
        assert forall|i: int| 0 <= i < all.len() implies plain_char(#[trigger] all[i]) by {
            if i < high.len() {
                assert(all[i] == high[i]);
            }
        }
    }
}

} // verus!
