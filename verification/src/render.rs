//! How bundles are written out: dotenv text for the encrypted cache, shell
//! `export` lines, JSON, and the script that `rage ssh` feeds to the remote
//! shell.

use vstd::prelude::*;

use crate::env::{Env, Pairs};
use crate::text::{is_ascii_alnum, is_ascii_alnum_char, push_char, push_str};

verus! {

// ---------------------------------------------------------------- shell quoting

/// The characters of `s` with each `'` written as `'\''`.
pub open spec fn shell_escape(s: Seq<char>) -> Seq<char>
    decreases s.len(),
{
    if s.len() == 0 {
        Seq::empty()
    } else {
        shell_escape(s.drop_last()) + (if s.last() == '\'' {
            seq!['\'', '\\', '\'', '\'']
        } else {
            seq![s.last()]
        })
    }
}

/// A single-quoted shell word that stands for `s`.
pub open spec fn shell_quoted(s: Seq<char>) -> Seq<char> {
    if s.len() == 0 {
        seq!['\'', '\'']
    } else {
        seq!['\''] + shell_escape(s) + seq!['\'']
    }
}

/// Quotes a value for a POSIX shell.
pub fn quote_shell(value: &str) -> (r: String)
    ensures
        r@ == shell_quoted(value@),
{
    let n = value.unicode_len();
    if n == 0 {
        let mut out = String::new();
        push_char(&mut out, '\'');
        push_char(&mut out, '\'');
        assert(out@ =~= seq!['\'', '\'']);
        return out;
    }
    let mut out = String::new();
    push_char(&mut out, '\'');
    let mut i: usize = 0;
    while i < n
        invariant
            n == value@.len(),
            i <= n,
            out@ == seq!['\''] + shell_escape(value@.subrange(0, i as int)),
        decreases n - i,
    {
        let c = value.get_char(i);
        let ghost before = out@;
        if c == '\'' {
            push_char(&mut out, '\'');
            push_char(&mut out, '\\');
            push_char(&mut out, '\'');
            push_char(&mut out, '\'');
        } else {
            push_char(&mut out, c);
        }
        proof {
            let t = value@.subrange(0, i + 1);
            assert(t.drop_last() =~= value@.subrange(0, i as int));
            assert(t.last() == c);
            assert(out@ =~= seq!['\''] + shell_escape(t));
        }
        i = i + 1;
    }
    assert(value@.subrange(0, n as int) =~= value@);
    push_char(&mut out, '\'');
    out
}

/// `p` in front of the text, if there is one.
pub open spec fn prepend(p: Seq<char>, o: Option<Seq<char>>) -> Option<Seq<char>> {
    match o {
        Some(r) => Some(p + r),
        None => None,
    }
}

/// Reading a single-quoted shell word back: the text between quotes is
/// taken literally, `\'` outside quotes stands for `'`. Returns `None` on
/// text a quoted word cannot hold.
pub open spec fn shell_unquote_plain(w: Seq<char>) -> Option<Seq<char>>
    decreases w.len(),
{
    // inside quotes: read up to the next quote
    if w.len() == 0 {
        None
    } else if w[0] == '\'' {
        shell_unquote_after(w.drop_first())
    } else {
        prepend(seq![w[0]], shell_unquote_plain(w.drop_first()))
    }
}

/// After a closing quote: either the end of the word, or `\'` followed by a
/// new quoted run.
pub open spec fn shell_unquote_after(w: Seq<char>) -> Option<Seq<char>>
    decreases w.len(),
{
    if w.len() == 0 {
        Some(Seq::empty())
    } else if w.len() >= 3 && w[0] == '\\' && w[1] == '\'' && w[2] == '\'' {
prepend(seq!['\''], shell_unquote_plain(w.subrange(3, w.len() as int)))
    } else {
        None
    }
}

/// How the shell reads a word made of quoted runs joined by `\'`.
pub open spec fn shell_unquote(w: Seq<char>) -> Option<Seq<char>> {
    if w.len() > 0 && w[0] == '\'' {
        shell_unquote_plain(w.drop_first())
    } else {
        None
    }
}

/// Quoting the rest of a value and then the closing quote reads back as
/// that value.
proof fn lemma_unquote_escaped(s: Seq<char>, tail: Seq<char>)
    ensures
        shell_unquote_plain(shell_escape_front(s) + tail) == prepend(s, shell_unquote_plain(tail)),
    decreases s.len(),
{
    if s.len() == 0 {
        assert(shell_escape_front(s) =~= Seq::<char>::empty());
        assert(shell_escape_front(s) + tail =~= tail);
        match shell_unquote_plain(tail) {
            Some(r) => {
                assert(s + r =~= r);
            },
            None => {},
        }
    } else {
        let c = s[0];
        let rest = s.drop_first();
        assert(s =~= seq![c] + rest);
        lemma_unquote_escaped(rest, tail);
        let inner = shell_escape_front(rest) + tail;
        let w = shell_escape_front(s) + tail;
        let p = shell_unquote_plain(tail);
        if c == '\'' {
            assert(shell_escape_front(s) == seq!['\'', '\\', '\'', '\''] + shell_escape_front(rest));
            assert(w =~= seq!['\'', '\\', '\'', '\''] + inner);
            let a = w.drop_first();
            assert(a =~= seq!['\\', '\'', '\''] + inner);
            assert(a.subrange(3, a.len() as int) =~= inner);
            assert(shell_unquote_plain(w) == shell_unquote_after(a));
            assert(shell_unquote_after(a) == prepend(seq!['\''], shell_unquote_plain(inner)));
            match p {
                Some(r) => {
                    assert(seq!['\''] + (rest + r) =~= s + r);
                },
                None => {},
            }
        } else {
            assert(shell_escape_front(s) == seq![c] + shell_escape_front(rest));
            assert(w =~= seq![c] + inner);
            assert(w.drop_first() =~= inner);
            assert(shell_unquote_plain(w) == prepend(seq![c], shell_unquote_plain(inner)));
            match p {
                Some(r) => {
                    assert(seq![c] + (rest + r) =~= s + r);
                },
                None => {},
            }
        }
    }
}

/// `shell_escape`, unfolded from the front.
pub open spec fn shell_escape_front(s: Seq<char>) -> Seq<char>
    decreases s.len(),
{
    if s.len() == 0 {
        Seq::empty()
    } else {
        (if s[0] == '\'' {
            seq!['\'', '\\', '\'', '\'']
        } else {
            seq![s[0]]
        }) + shell_escape_front(s.drop_first())
    }
}

proof fn lemma_escape_front_push(s: Seq<char>, c: char)
    ensures
        shell_escape_front(s.push(c)) == shell_escape_front(s) + (if c == '\'' {
            seq!['\'', '\\', '\'', '\'']
        } else {
            seq![c]
        }),
    decreases s.len(),
{
    if s.len() == 0 {
        assert(s.push(c).drop_first() =~= Seq::<char>::empty());
        assert(shell_escape_front(Seq::<char>::empty()) =~= Seq::<char>::empty());
        assert(shell_escape_front(s) =~= Seq::<char>::empty());
        assert(shell_escape_front(s.push(c)) =~= (if c == '\'' {
            seq!['\'', '\\', '\'', '\'']
        } else {
            seq![c]
        }));
    } else {
        lemma_escape_front_push(s.drop_first(), c);
        assert(s.push(c).drop_first() =~= s.drop_first().push(c));
        assert(s.push(c)[0] == s[0]);
        let h = if s[0] == '\'' {
            seq!['\'', '\\', '\'', '\'']
        } else {
            seq![s[0]]
        };
        let t = if c == '\'' {
            seq!['\'', '\\', '\'', '\'']
        } else {
            seq![c]
        };
        assert(h + (shell_escape_front(s.drop_first()) + t) =~= (h + shell_escape_front(
            s.drop_first(),
        )) + t);
    }
}

proof fn lemma_escape_forms_agree(s: Seq<char>)
    ensures
        shell_escape(s) == shell_escape_front(s),
    decreases s.len(),
{
    if s.len() > 0 {
        lemma_escape_forms_agree(s.drop_last());
        lemma_escape_front_push(s.drop_last(), s.last());
        assert(s.drop_last().push(s.last()) =~= s);
    }
}

/// Law: the shell reads a quoted value back as exactly that value, whatever
/// characters it holds.
pub proof fn law_shell_quote_round_trip(s: Seq<char>)
    ensures
        shell_unquote(shell_quoted(s)) == Some(s),
{
    if s.len() == 0 {
        let w = seq!['\'', '\''];
        assert(shell_quoted(s) == w);
        assert(w.drop_first() =~= seq!['\'']);
        let one = seq!['\''];
        assert(one.drop_first() =~= Seq::<char>::empty());
        assert(shell_unquote_plain(one) == shell_unquote_after(Seq::<char>::empty()));
        assert(s =~= Seq::<char>::empty());
    } else {
        lemma_escape_forms_agree(s);
        let w = shell_quoted(s);
        assert(w.drop_first() =~= shell_escape_front(s) + seq!['\'']);
        lemma_unquote_escaped(s, seq!['\'']);
        let one = seq!['\''];
        assert(one.drop_first() =~= Seq::<char>::empty());
        assert(shell_unquote_plain(one) == shell_unquote_after(Seq::<char>::empty()));
        assert(shell_unquote_plain(one) == Some(Seq::<char>::empty()));
        assert(s + Seq::<char>::empty() =~= s);
    }
}

// ---------------------------------------------------------------- dotenv

/// Characters a dotenv value may use without quotes.
pub open spec fn is_dotenv_plain_char(c: char) -> bool {
    is_ascii_alnum(c) || c == '_' || c == '-' || c == '.' || c == '/' || c == ':' || c == '@'
}

/// `s` with `\` doubled and `"` preceded by `\`.
pub open spec fn dquote_escape(s: Seq<char>) -> Seq<char>
    decreases s.len(),
{
    if s.len() == 0 {
        Seq::empty()
    } else {
        dquote_escape(s.drop_last()) + (if s.last() == '\\' {
            seq!['\\', '\\']
        } else if s.last() == '"' {
            seq!['\\', '"']
        } else {
            seq![s.last()]
        })
    }
}

/// A dotenv value: bare when every character is plain, double-quoted with
/// escapes otherwise.
pub open spec fn dotenv_value(s: Seq<char>) -> Seq<char> {
    if forall|i: int| 0 <= i < s.len() ==> is_dotenv_plain_char(#[trigger] s[i]) {
        s
    } else {
        seq!['"'] + dquote_escape(s) + seq!['"']
    }
}

fn is_plain_value(value: &str) -> (r: bool)
    ensures
        r == forall|i: int| 0 <= i < value@.len() ==> is_dotenv_plain_char(#[trigger] value@[i]),
{
    let n = value.unicode_len();
    let mut i: usize = 0;
    while i < n
        invariant
            n == value@.len(),
            i <= n,
            forall|j: int| 0 <= j < i ==> is_dotenv_plain_char(#[trigger] value@[j]),
        decreases n - i,
    {
        let c = value.get_char(i);
        if !(is_ascii_alnum_char(c) || c == '_' || c == '-' || c == '.' || c == '/' || c == ':'
            || c == '@') {
            assert(!is_dotenv_plain_char(value@[i as int]));
            return false;
        }
        i = i + 1;
    }
    true
}

/// Quotes a value for a dotenv file.
pub fn quote_dotenv(value: &str) -> (r: String)
    ensures
        r@ == dotenv_value(value@),
{
    if is_plain_value(value) {
        return value.to_owned();
    }
    let n = value.unicode_len();
    let mut out = String::new();
    push_char(&mut out, '"');
    let mut i: usize = 0;
    while i < n
        invariant
            n == value@.len(),
            i <= n,
            out@ == seq!['"'] + dquote_escape(value@.subrange(0, i as int)),
        decreases n - i,
    {
        let c = value.get_char(i);
        if c == '\\' {
            push_char(&mut out, '\\');
            push_char(&mut out, '\\');
        } else if c == '"' {
            push_char(&mut out, '\\');
            push_char(&mut out, '"');
        } else {
            push_char(&mut out, c);
        }
        proof {
            let t = value@.subrange(0, i + 1);
            assert(t.drop_last() =~= value@.subrange(0, i as int));
            assert(out@ =~= seq!['"'] + dquote_escape(t));
        }
        i = i + 1;
    }
    assert(value@.subrange(0, n as int) =~= value@);
    push_char(&mut out, '"');
    out
}

/// One line per variable: `NAME=value`.
pub open spec fn dotenv_text(s: Pairs) -> Seq<char>
    decreases s.len(),
{
    if s.len() == 0 {
        Seq::empty()
    } else {
        dotenv_text(s.drop_last()) + s.last().0 + seq!['='] + dotenv_value(s.last().1) + seq![
            '\n',
        ]
    }
}

/// The dotenv text the encrypted cache stores for a bundle.
pub fn render_dotenv(env: &Env) -> (r: String)
    ensures
        r@ == dotenv_text(env@),
{
    let n = env.len();
    let mut out = String::new();
    let mut i: usize = 0;
    while i < n
        invariant
            n == env@.len(),
            i <= n,
            out@ == dotenv_text(env@.subrange(0, i as int)),
        decreases n - i,
    {
        push_str(&mut out, env.key_at(i).as_str());
        push_char(&mut out, '=');
        let q = quote_dotenv(env.value_at(i).as_str());
        push_str(&mut out, q.as_str());
        push_char(&mut out, '\n');
        proof {
            let t = env@.subrange(0, i + 1);
            assert(t.drop_last() =~= env@.subrange(0, i as int));
        }
        i = i + 1;
    }
    assert(env@.subrange(0, n as int) =~= env@);
    out
}

// ---------------------------------------------------------------- JSON

/// Unicode general category Cc, which `char::is_control` tests.
pub open spec fn is_control(c: char) -> bool {
    (c as u32) <= 0x1f || (0x7f <= (c as u32) && (c as u32) <= 0x9f)
}

pub open spec fn hex_lower(n: u32) -> char {
    if n < 10 {
        ((n + 48) as u8) as char
    } else {
        ((n + 87) as u8) as char
    }
}

/// `\uXXXX` with four lower-case hex digits.
pub open spec fn json_unicode_escape(c: char) -> Seq<char> {
    let v = c as u32;
    seq![
        '\\',
        'u',
        hex_lower((v / 4096) % 16),
        hex_lower((v / 256) % 16),
        hex_lower((v / 16) % 16),
        hex_lower(v % 16),
    ]
}

pub open spec fn json_char(c: char) -> Seq<char> {
    if c == '"' {
        seq!['\\', '"']
    } else if c == '\\' {
        seq!['\\', '\\']
    } else if c == '\n' {
        seq!['\\', 'n']
    } else if c == '\r' {
        seq!['\\', 'r']
    } else if c == '\t' {
        seq!['\\', 't']
    } else if is_control(c) {
        json_unicode_escape(c)
    } else {
        seq![c]
    }
}

/// The body of a JSON string literal holding `s`.
pub open spec fn json_escaped(s: Seq<char>) -> Seq<char>
    decreases s.len(),
{
    if s.len() == 0 {
        Seq::empty()
    } else {
        json_escaped(s.drop_last()) + json_char(s.last())
    }
}

fn hex_digit(n: u32) -> (r: char)
    requires
        n < 16,
    ensures
        r == hex_lower(n),
{
    if n < 10 {
        ((n + 48) as u8) as char
    } else {
        ((n + 87) as u8) as char
    }
}

/// Escapes a string for a JSON string literal.
pub fn escape_json(value: &str) -> (r: String)
    ensures
        r@ == json_escaped(value@),
{
    let n = value.unicode_len();
    let mut out = String::new();
    let mut i: usize = 0;
    while i < n
        invariant
            n == value@.len(),
            i <= n,
            out@ == json_escaped(value@.subrange(0, i as int)),
        decreases n - i,
    {
        let c = value.get_char(i);
        let ghost before = out@;
        if c == '"' {
            push_char(&mut out, '\\');
            push_char(&mut out, '"');
        } else if c == '\\' {
            push_char(&mut out, '\\');
            push_char(&mut out, '\\');
        } else if c == '\n' {
            push_char(&mut out, '\\');
            push_char(&mut out, 'n');
        } else if c == '\r' {
            push_char(&mut out, '\\');
            push_char(&mut out, 'r');
        } else if c == '\t' {
            push_char(&mut out, '\\');
            push_char(&mut out, 't');
        } else {
            let v = c as u32;
            if v <= 0x1f || (0x7f <= v && v <= 0x9f) {
                push_char(&mut out, '\\');
                push_char(&mut out, 'u');
                push_char(&mut out, hex_digit((v / 4096) % 16));
                push_char(&mut out, hex_digit((v / 256) % 16));
                push_char(&mut out, hex_digit((v / 16) % 16));
                push_char(&mut out, hex_digit(v % 16));
            } else {
                push_char(&mut out, c);
            }
        }
        proof {
            let t = value@.subrange(0, i + 1);
            assert(t.drop_last() =~= value@.subrange(0, i as int));
            assert(t.last() == c);
            assert(out@ =~= before + json_char(c));
        }
        i = i + 1;
    }
    assert(value@.subrange(0, n as int) =~= value@);
    out
}

/// One member line of the JSON object; all but the last end with a comma.
pub open spec fn json_member(key: Seq<char>, value: Seq<char>, last: bool) -> Seq<char> {
    seq![' ', ' ', '"'] + json_escaped(key) + seq!['"', ':', ' ', '"'] + json_escaped(value)
        + seq!['"'] + (if last {
        Seq::<char>::empty()
    } else {
        seq![',']
    }) + seq!['\n']
}

/// The member lines of the JSON object, the last without a comma.
pub open spec fn json_members(s: Pairs, total: nat) -> Seq<char>
    decreases s.len(),
{
    if s.len() == 0 {
        Seq::empty()
    } else {
        json_members(s.drop_last(), total) + json_member(s.last().0, s.last().1, s.len() == total)
    }
}

fn push_member(out: &mut String, key: &str, value: &str, last: bool)
    ensures
        final(out)@ == old(out)@ + json_member(key@, value@, last),
{
    push_char(out, ' ');
    push_char(out, ' ');
    push_char(out, '"');
    let k = escape_json(key);
    push_str(out, k.as_str());
    push_char(out, '"');
    push_char(out, ':');
    push_char(out, ' ');
    push_char(out, '"');
    let v = escape_json(value);
    push_str(out, v.as_str());
    push_char(out, '"');
    if !last {
        push_char(out, ',');
    }
    push_char(out, '\n');
    assert(out@ =~= old(out)@ + json_member(key@, value@, last));
}

/// A bundle as a JSON object of strings, one member per line.
pub open spec fn json_text(s: Pairs) -> Seq<char> {
    seq!['{', '\n'] + json_members(s, s.len()) + seq!['}', '\n']
}

/// The text that `rage load --format json` prints.
pub fn render_json(env: &Env) -> (r: String)
    ensures
        r@ == json_text(env@),
{
    let n = env.len();
    let mut out = String::new();
    push_char(&mut out, '{');
    push_char(&mut out, '\n');
    let mut i: usize = 0;
    while i < n
        invariant
            n == env@.len(),
            i <= n,
            out@ == seq!['{', '\n'] + json_members(env@.subrange(0, i as int), n as nat),
        decreases n - i,
    {
        push_member(&mut out, env.key_at(i).as_str(), env.value_at(i).as_str(), i + 1 == n);
        proof {
            let t = env@.subrange(0, i + 1);
            assert(t.drop_last() =~= env@.subrange(0, i as int));
            assert(t.len() == i + 1);
            assert(out@ =~= seq!['{', '\n'] + json_members(t, n as nat));
        }
        i = i + 1;
    }
    assert(env@.subrange(0, n as int) =~= env@);
    push_char(&mut out, '}');
    push_char(&mut out, '\n');
    out
}

// ---------------------------------------------------------------- shell exports

/// `export NAME='value'` lines.
pub open spec fn exports_text(s: Pairs) -> Seq<char>
    decreases s.len(),
{
    if s.len() == 0 {
        Seq::empty()
    } else {
        exports_text(s.drop_last()) + "export "@ + s.last().0 + seq!['='] + shell_quoted(
            s.last().1,
        ) + seq!['\n']
    }
}

fn push_exports(out: &mut String, env: &Env)
    ensures
        final(out)@ == old(out)@ + exports_text(env@),
{
    let n = env.len();
    let mut i: usize = 0;
    let ghost start = out@;
    while i < n
        invariant
            n == env@.len(),
            i <= n,
            out@ == start + exports_text(env@.subrange(0, i as int)),
        decreases n - i,
    {
        push_str(out, "export ");
        push_str(out, env.key_at(i).as_str());
        push_char(out, '=');
        let q = quote_shell(env.value_at(i).as_str());
        push_str(out, q.as_str());
        push_char(out, '\n');
        proof {
            let t = env@.subrange(0, i + 1);
            assert(t.drop_last() =~= env@.subrange(0, i as int));
            assert(out@ =~= start + exports_text(t));
        }
        i = i + 1;
    }
    assert(env@.subrange(0, n as int) =~= env@);
}

/// The function that a sourced `rage load` installs so that a later
/// `rage unset` also unsets the variable in the current shell.
pub open spec fn shell_hook_text(rage_bin: Seq<char>) -> Seq<char> {
    "__rage_bin="@ + shell_quoted(rage_bin) + "\n"@ + "rage() {\n"@
        + "  if [ \"$#\" -ge 3 ] && [ \"$1\" = 'unset' ]; then\n"@
        + "    __rage_script=\"$(\"$__rage_bin\" \"$@\" --emit-shell-unset)\"\n"@
        + "    __rage_status=$?\n"@ + "    if [ \"$__rage_status\" -eq 0 ]; then\n"@
        + "      eval \"$__rage_script\"\n"@ + "      __rage_status=$?\n"@ + "    fi\n"@
        + "    __rage_return=$__rage_status\n"@ + "    unset __rage_script __rage_status\n"@
        + "    return \"$__rage_return\"\n"@ + "  fi\n"@ + "  \"$__rage_bin\" \"$@\"\n"@ + "}\n"@
}

/// What `rage load --format export` prints: an export line per variable,
/// then, when asked for, the shell hook.
pub fn render_exports(env: &Env, shell_hook_bin: Option<&str>) -> (r: String)
    ensures
        r@ == exports_text(env@) + (match shell_hook_bin {
            Some(bin) => shell_hook_text(bin@),
            None => Seq::empty(),
        }),
{
    let mut out = String::new();
    push_exports(&mut out, env);
    match shell_hook_bin {
        Some(bin) => {
            let ghost before = out@;
            push_str(&mut out, "__rage_bin=");
            let q = quote_shell(bin);
            push_str(&mut out, q.as_str());
            push_str(&mut out, "\n");
            push_str(&mut out, "rage() {\n");
            push_str(&mut out, "  if [ \"$#\" -ge 3 ] && [ \"$1\" = 'unset' ]; then\n");
            push_str(&mut out, "    __rage_script=\"$(\"$__rage_bin\" \"$@\" --emit-shell-unset)\"\n");
            push_str(&mut out, "    __rage_status=$?\n");
            push_str(&mut out, "    if [ \"$__rage_status\" -eq 0 ]; then\n");
            push_str(&mut out, "      eval \"$__rage_script\"\n");
            push_str(&mut out, "      __rage_status=$?\n");
            push_str(&mut out, "    fi\n");
            push_str(&mut out, "    __rage_return=$__rage_status\n");
            push_str(&mut out, "    unset __rage_script __rage_status\n");
            push_str(&mut out, "    return \"$__rage_return\"\n");
            push_str(&mut out, "  fi\n");
            push_str(&mut out, "  \"$__rage_bin\" \"$@\"\n");
            push_str(&mut out, "}\n");
            assert(out@ =~= before + shell_hook_text(bin@));
        },
        None => {
            assert(out@ =~= exports_text(env@) + Seq::<char>::empty());
        },
    }
    out
}

/// Shell code that `rage unset --emit-shell-unset` prints for the hook to
/// evaluate.
pub open spec fn shell_unset_text(bundle: Seq<char>, key: Seq<char>) -> Seq<char> {
    "unset "@ + key + "\n"@ + "printf '%s\\n' "@ + shell_quoted("updated "@ + bundle) + "\n"@
}

pub fn render_shell_unset(bundle: &str, key: &str) -> (r: String)
    ensures
        r@ == shell_unset_text(bundle@, key@),
{
    let mut out = "unset ".to_owned();
    push_str(&mut out, key);
    push_str(&mut out, "\n");
    push_str(&mut out, "printf '%s\\n' ");
    let mut msg = "updated ".to_owned();
    push_str(&mut msg, bundle);
    let q = quote_shell(msg.as_str());
    push_str(&mut out, q.as_str());
    push_str(&mut out, "\n");
    out
}

// ---------------------------------------------------------------- ssh

/// The quoted words of a command, each preceded by a space.
pub open spec fn quoted_words(words: Seq<Seq<char>>) -> Seq<char>
    decreases words.len(),
{
    if words.len() == 0 {
        Seq::empty()
    } else {
        quoted_words(words.drop_last()) + seq![' '] + shell_quoted(words.last())
    }
}

/// The script `rage ssh` sends over the remote shell's stdin: exports, then
/// the command or a login shell.
pub open spec fn remote_script_text(env: Pairs, command: Seq<Seq<char>>) -> Seq<char> {
    "set -eu\n"@ + exports_text(env) + if command.len() == 0 {
        "exec \"${SHELL:-/bin/sh}\" -l\n"@
    } else {
        "exec"@ + quoted_words(command) + "\n"@
    }
}

/// Builds the remote script; the secrets travel on stdin, never in the
/// arguments of the local `ssh` process.
pub fn remote_script(env: &Env, command: &Vec<String>) -> (r: String)
    ensures
        r@ == remote_script_text(env@, crate::env::string_views(command@)),
{
    let mut out = "set -eu\n".to_owned();
    push_exports(&mut out, env);
    let ghost words = crate::env::string_views(command@);
    if command.len() == 0 {
        push_str(&mut out, "exec \"${SHELL:-/bin/sh}\" -l\n");
    } else {
        push_str(&mut out, "exec");
        let ghost base = out@;
        let mut i: usize = 0;
        while i < command.len()
            invariant
                i <= command@.len(),
                words == crate::env::string_views(command@),
                out@ == base + quoted_words(words.subrange(0, i as int)),
            decreases command@.len() - i,
        {
            push_char(&mut out, ' ');
            let q = quote_shell(command[i].as_str());
            push_str(&mut out, q.as_str());
            proof {
                let t = words.subrange(0, i + 1);
                assert(t.drop_last() =~= words.subrange(0, i as int));
                assert(t.last() == command@[i as int]@);
                assert(out@ =~= base + quoted_words(t));
            }
            i = i + 1;
        }
        assert(words.subrange(0, command@.len() as int) =~= words);
        push_str(&mut out, "\n");
    }
    out
}

// ---------------------------------------------------------------- reading JSON strings back

/// The value of a hexadecimal digit, either case.
pub open spec fn hex_value(h: char) -> Option<u32> {
    let v = h as u32;
    if 48 <= v && v <= 57 {
        Some((v - 48) as u32)
    } else if 97 <= v && v <= 102 {
        Some((v - 87) as u32)
    } else if 65 <= v && v <= 70 {
        Some((v - 55) as u32)
    } else {
        None
    }
}

pub open spec fn prepend_char(c: char, rest: Option<Seq<char>>) -> Option<Seq<char>> {
    match rest {
        Some(r) => Some(seq![c] + r),
        None => None,
    }
}

/// The character a two-character escape `\e` stands for in a JSON string.
pub open spec fn json_short_escape(e: char) -> Option<char> {
    if e == '"' {
        Some('"')
    } else if e == '\\' {
        Some('\\')
    } else if e == '/' {
        Some('/')
    } else if e == 'b' {
        Some('\x08')
    } else if e == 'f' {
        Some('\x0c')
    } else if e == 'n' {
        Some('\n')
    } else if e == 'r' {
        Some('\r')
    } else if e == 't' {
        Some('\t')
    } else {
        None
    }
}

/// The text that the body of a JSON string literal stands for, read from
/// the front as RFC 8259 reads it: a bare `"` or a character below U+0020
/// ends the reading with `None`, `\` starts a two-character escape or a
/// `\uXXXX` escape. Escapes of UTF-16 surrogate halves are declined.
pub open spec fn json_unescape(t: Seq<char>) -> Option<Seq<char>>
    decreases t.len(),
{
    if t.len() == 0 {
        Some(Seq::empty())
    } else if t[0] == '"' || (t[0] as u32) < 0x20 {
        None
    } else if t[0] != '\\' {
        prepend_char(t[0], json_unescape(t.drop_first()))
    } else if t.len() < 2 {
        None
    } else {
        match json_short_escape(t[1]) {
            Some(c) => prepend_char(c, json_unescape(t.subrange(2, t.len() as int))),
            None => if t[1] == 'u' && t.len() >= 6 {
                match (hex_value(t[2]), hex_value(t[3]), hex_value(t[4]), hex_value(t[5])) {
                    (Some(a), Some(b), Some(c), Some(d)) => {
                        let v = (a * 4096 + b * 256 + c * 16 + d) as u32;
                        if 0xd800 <= v && v <= 0xdfff {
                            None
                        } else {
                            prepend_char(v as char, json_unescape(t.subrange(6, t.len() as int)))
                        }
                    },
                    _ => None,
                }
            } else {
                None
            },
        }
    }
}

proof fn lemma_escaped_front(c: char, s: Seq<char>)
    ensures
        json_escaped(seq![c] + s) == json_char(c) + json_escaped(s),
    decreases s.len(),
{
    if s.len() == 0 {
        assert((seq![c] + s).drop_last() =~= Seq::<char>::empty());
        assert(json_escaped(Seq::<char>::empty()) =~= Seq::<char>::empty());
        assert(json_char(c) + Seq::<char>::empty() =~= json_char(c));
    } else {
        assert((seq![c] + s).drop_last() =~= seq![c] + s.drop_last());
        lemma_escaped_front(c, s.drop_last());
        assert(json_escaped(seq![c] + s) =~= json_char(c) + json_escaped(s));
    }
}

proof fn lemma_hex_digit_value(n: u32)
    requires
        n < 16,
    ensures
        hex_value(hex_lower(n)) == Some(n),
{
    assert(hex_lower(n) as u32 == if n < 10 {
        n + 48
    } else {
        n + 87
    });
}

proof fn lemma_unescape_char(c: char, x: Seq<char>)
    ensures
        json_unescape(json_char(c) + x) == prepend_char(c, json_unescape(x)),
{
    let t = json_char(c) + x;
    if c == '"' || c == '\\' || c == '\n' || c == '\r' || c == '\t' {
        assert(t.subrange(2, t.len() as int) =~= x);
    } else if is_control(c) {
        let v = c as u32;
        assert(v <= 0x9f);
        let d0 = (v / 4096) % 16;
        let d1 = (v / 256) % 16;
        let d2 = (v / 16) % 16;
        let d3 = v % 16;
        lemma_hex_digit_value(d0);
        lemma_hex_digit_value(d1);
        lemma_hex_digit_value(d2);
        lemma_hex_digit_value(d3);
        assert(d0 * 4096 + d1 * 256 + d2 * 16 + d3 == v) by (bit_vector)
            requires
                d0 == (v / 4096) % 16,
                d1 == (v / 256) % 16,
                d2 == (v / 16) % 16,
                d3 == v % 16,
                v <= 0x9f,
        ;
        assert(((c as u32) as char) == c);
        assert(t.subrange(6, t.len() as int) =~= x);
        assert(t[0] == '\\' && t[1] == 'u');
        assert(json_short_escape('u') is None);
    } else {
        assert(t.drop_first() =~= x);
    }
}

/// Law: reading the escaped text back as the body of a JSON string literal
/// gives the original text, whatever it holds: every quote, backslash and
/// control character is escaped so that JSON reads it as itself.
pub proof fn law_json_escape_reads_back(s: Seq<char>)
    ensures
        json_unescape(json_escaped(s)) == Some(s),
    decreases s.len(),
{
    if s.len() == 0 {
        assert(json_escaped(s) =~= Seq::<char>::empty());
    } else {
        let rest = s.drop_first();
        assert(s =~= seq![s[0]] + rest);
        lemma_escaped_front(s[0], rest);
        lemma_unescape_char(s[0], json_escaped(rest));
        law_json_escape_reads_back(rest);
    }
}

} // verus!
