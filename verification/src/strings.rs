//! The values of GraphQL string literals: escape sequences in quoted strings,
//! and indentation, blank edge lines and line endings in block strings.
use vstd::prelude::*;
use vstd::std_specs::iter::IteratorSpec;

verus! {

broadcast use vstd::string::group_string_axioms;

/// The value of a hexadecimal digit; any other character counts as zero.
pub open spec fn hex_digit_value(c: char) -> nat {
    if '0' <= c <= '9' {
        (c as nat - '0' as nat) as nat
    } else if 'a' <= c <= 'f' {
        (c as nat - 'a' as nat + 10) as nat
    } else if 'A' <= c <= 'F' {
        (c as nat - 'A' as nat + 10) as nat
    } else {
        0
    }
}

/// The number that the hexadecimal digits of `s` spell, most significant first.
pub open spec fn hex_value(s: Seq<char>) -> nat
    decreases s.len(),
{
    if s.len() == 0 {
        0
    } else {
        hex_value(s.drop_last()) * 16 + hex_digit_value(s.last())
    }
}

/// Whether `v` is the code of a character (a Unicode scalar value).
pub open spec fn is_char_code(v: nat) -> bool {
    v < 0xD800 || (0xDFFF < v && v <= 0x10FFFF)
}

/// The text of a quoted string with its escape sequences replaced: `\" \\ \/`
/// stand for themselves, `\b \f \n \r \t` for their control characters,
/// `\u` followed by up to four hexadecimal digits for the character with that
/// code (nothing when the code is not a character's), and a backslash before
/// any other character is dropped together with it. A backslash at the very
/// end stays.
pub open spec fn unescape(s: Seq<char>) -> Seq<char>
    decreases s.len(),
{
    if s.len() == 0 {
        Seq::empty()
    } else if s[0] != '\\' {
        seq![s[0]] + unescape(s.drop_first())
    } else if s.len() == 1 {
        seq!['\\']
    } else {
        let c2 = s[1];
        let rest = s.subrange(2, s.len() as int);
        if c2 == '"' || c2 == '\\' || c2 == '/' {
            seq![c2] + unescape(rest)
        } else if c2 == 'b' {
            seq!['\u{0008}'] + unescape(rest)
        } else if c2 == 'f' {
            seq!['\u{000c}'] + unescape(rest)
        } else if c2 == 'n' {
            seq!['\n'] + unescape(rest)
        } else if c2 == 'r' {
            seq!['\r'] + unescape(rest)
        } else if c2 == 't' {
            seq!['\t'] + unescape(rest)
        } else if c2 == 'u' {
            let k = if rest.len() < 4 {
                rest.len() as int
            } else {
                4
            };
            let v = hex_value(rest.take(k));
            if is_char_code(v) {
                seq![v as char] + unescape(rest.skip(k))
            } else {
                unescape(rest.skip(k))
            }
        } else {
            unescape(rest)
        }
    }
}

/// `s` without the one double quote that opens it and the one that closes
/// it (an escaped quote just before the closing one stays).
pub open spec fn trim_quotes(s: Seq<char>) -> Seq<char> {
    let a = if s.len() > 0 && s[0] == '"' {
        s.drop_first()
    } else {
        s
    };
    if a.len() > 0 && a.last() == '"' {
        a.drop_last()
    } else {
        a
    }
}

/// `s` with each `\r\n` and each lone `\r` replaced by `\n`.
pub open spec fn normalize_newlines(s: Seq<char>) -> Seq<char>
    decreases s.len(),
{
    if s.len() == 0 {
        Seq::empty()
    } else if s[0] == '\r' {
        if s.len() > 1 && s[1] == '\n' {
            seq!['\n'] + normalize_newlines(s.subrange(2, s.len() as int))
        } else {
            seq!['\n'] + normalize_newlines(s.drop_first())
        }
    } else {
        seq![s[0]] + normalize_newlines(s.drop_first())
    }
}

/// The three quotes that open and close a block string.
pub open spec fn triple_quote() -> Seq<char> {
    seq!['"', '"', '"']
}

/// The text between a block string's opening and closing triple quotes, or the
/// whole of `raw` when it is not so delimited.
pub open spec fn block_content(raw: Seq<char>) -> Seq<char> {
    if raw.len() >= 6 && raw.take(3) == triple_quote() && raw.skip(raw.len() - 3)
        == triple_quote() {
        raw.subrange(3, raw.len() - 3)
    } else {
        raw
    }
}

/// Block string characters with each escaped triple quote `\"""` turned
/// into `"""`.
pub open spec fn unescape_triple_quotes(s: Seq<char>) -> Seq<char>
    decreases s.len(),
{
    if s.len() == 0 {
        Seq::empty()
    } else if s.len() >= 4 && s[0] == '\\' && s[1] == '"' && s[2] == '"' && s[3] == '"' {
        triple_quote() + unescape_triple_quotes(s.skip(4))
    } else {
        seq![s[0]] + unescape_triple_quotes(s.drop_first())
    }
}

/// A space or a tab.
pub open spec fn is_ws(c: char) -> bool {
    c == ' ' || c == '\t'
}

/// How many spaces and tabs a line starts with.
pub open spec fn indent(l: Seq<char>) -> nat
    decreases l.len(),
{
    if l.len() == 0 {
        0
    } else if is_ws(l[0]) {
        1 + indent(l.drop_first())
    } else {
        0
    }
}

/// The line holds only spaces and tabs.
pub open spec fn blank(l: Seq<char>) -> bool {
    indent(l) == l.len()
}

/// The lines of `s`, split at each `\n` (there is always at least one).
pub open spec fn split_lines(s: Seq<char>) -> Seq<Seq<char>>
    decreases s.len(),
{
    if s.len() == 0 {
        seq![Seq::empty()]
    } else {
        let r = split_lines(s.drop_last());
        if s.last() == '\n' {
            r.push(Seq::empty())
        } else {
            r.update(r.len() - 1, r.last().push(s.last()))
        }
    }
}

/// The least indentation of the lines of `ls` that are not blank, if any.
pub open spec fn min_indent(ls: Seq<Seq<char>>) -> Option<nat>
    decreases ls.len(),
{
    if ls.len() == 0 {
        None
    } else {
        let r = min_indent(ls.drop_last());
        let l = ls.last();
        if blank(l) {
            r
        } else {
            match r {
                None => Some(indent(l)),
                Some(m) => Some(if indent(l) < m {
                    indent(l)
                } else {
                    m
                }),
            }
        }
    }
}

/// The lines without `ci` leading characters (all of a shorter one), the
/// first line aside.
pub open spec fn dedent(ls: Seq<Seq<char>>, ci: Option<nat>) -> Seq<Seq<char>> {
    Seq::new(
        ls.len(),
        |i: int|
            if i == 0 || ci is None {
                ls[i]
            } else if ci->0 <= ls[i].len() {
                ls[i].skip(ci->0 as int)
            } else {
                Seq::empty()
            },
    )
}

pub open spec fn drop_blank_front(ls: Seq<Seq<char>>) -> Seq<Seq<char>>
    decreases ls.len(),
{
    if ls.len() > 0 && blank(ls[0]) {
        drop_blank_front(ls.drop_first())
    } else {
        ls
    }
}

pub open spec fn drop_blank_back(ls: Seq<Seq<char>>) -> Seq<Seq<char>>
    decreases ls.len(),
{
    if ls.len() > 0 && blank(ls.last()) {
        drop_blank_back(ls.drop_last())
    } else {
        ls
    }
}

/// The lines joined by `\n`.
pub open spec fn join_lines(ls: Seq<Seq<char>>) -> Seq<char>
    decreases ls.len(),
{
    if ls.len() == 0 {
        Seq::empty()
    } else if ls.len() == 1 {
        ls[0]
    } else {
        join_lines(ls.drop_last()) + seq!['\n'] + ls.last()
    }
}

/// GraphQL's BlockStringValue of the raw characters of a block string:
/// split into lines, the common indentation of the lines after the first
/// removed, blank lines at either end dropped, the rest joined by `\n`.
pub open spec fn block_string_value(raw_value: Seq<char>) -> Seq<char> {
    let lines = split_lines(normalize_newlines(raw_value));
    let d = dedent(lines, min_indent(lines.drop_first()));
    join_lines(drop_blank_back(drop_blank_front(d)))
}

/// The value of a block string with source text `raw`.
pub open spec fn block_value(raw: Seq<char>) -> Seq<char> {
    block_string_value(unescape_triple_quotes(block_content(raw)))
}

/// The value of a string literal with source text `raw`.
pub open spec fn string_value(raw: Seq<char>, block: bool) -> Seq<char> {
    if block {
        block_value(raw)
    } else {
        unescape(trim_quotes(raw))
    }
}

/// Appends a character to a string (std's `String::push`). The call panics
/// only when the string would outgrow `isize::MAX` bytes, which no contract
/// here rules out.
#[verifier::external_body]
fn push_char(s: &mut String, c: char)
    ensures
        final(s)@ == old(s)@.push(c),
{
    s.push(c);
}

/// The character with code `v`, if there is one (std's `char::from_u32`).
#[verifier::external_body]
fn char_from_code(v: u32) -> (r: Option<char>)
    ensures
        r is Some <==> is_char_code(v as nat),
        r matches Some(c) ==> c == v as char,
{
    char::from_u32(v)
}

/// The characters of `s`.
pub fn chars_of(s: &str) -> (r: Vec<char>)
    ensures
        r@ == s@,
{
    let mut it = s.chars();
    let mut v: Vec<char> = Vec::new();
    loop
        invariant
            v@ + IteratorSpec::remaining(&it) == s@,
            it.obeys_prophetic_iter_laws(),
            IteratorSpec::decrease(&it) is Some,
        ensures
            v@ == s@,
        decreases IteratorSpec::decrease(&it)->0,
    {
        let ghost before = IteratorSpec::remaining(&it);
        match it.next() {
            Some(c) => {
                v.push(c);
                assert(v@ + IteratorSpec::remaining(&it) =~= s@);
            },
            None => {
                assert(v@ =~= s@);
                break ;
            },
        }
    }
    v
}

fn hex_digit_of(c: char) -> (r: u32)
    ensures
        r == hex_digit_value(c),
        r < 16,
{
    if '0' <= c && c <= '9' {
        (c as u32) - ('0' as u32)
    } else if 'a' <= c && c <= 'f' {
        (c as u32) - ('a' as u32) + 10
    } else if 'A' <= c && c <= 'F' {
        (c as u32) - ('A' as u32) + 10
    } else {
        0
    }
}

proof fn lemma_hex_value_bound(s: Seq<char>)
    ensures
        hex_value(s) < pow16(s.len()),
    decreases s.len(),
{
    if s.len() > 0 {
        lemma_hex_value_bound(s.drop_last());
        assert(hex_digit_value(s.last()) < 16);
        assert(pow16(s.len()) == 16 * pow16((s.len() - 1) as nat));
    }
}

spec fn pow16(n: nat) -> nat
    decreases n,
{
    if n == 0 {
        1
    } else {
        16 * pow16((n - 1) as nat)
    }
}

/// Replaces the escape sequences of a quoted string's text by the characters
/// they stand for.
pub fn unescape_string(input: &str) -> (r: String)
    ensures
        r@ == unescape(input@),
{
    let s = chars_of(input);
    let n = s.len();
    let mut out = String::new();
    let mut i: usize = 0;
    assert(s@.subrange(0, n as int) =~= s@);
    while i < n
        invariant
            n == s@.len(),
            s@ == input@,
            i <= n,
            out@ + unescape(s@.subrange(i as int, n as int)) == unescape(s@),
        decreases n - i,
    {
        let ghost rest0 = s@.subrange(i as int, n as int);
        let c = s[i];
        if c != '\\' {
            assert(rest0.drop_first() =~= s@.subrange(i + 1, n as int));
            push_char(&mut out, c);
            i = i + 1;
            assert(out@ + unescape(s@.subrange(i as int, n as int)) =~= unescape(s@));
            continue;
        }
        if i + 1 == n {
            push_char(&mut out, c);
            i = n;
            assert(out@ + unescape(s@.subrange(i as int, n as int)) =~= unescape(s@));
            continue;
        }
        let c2 = s[i + 1];
        let ghost rest = rest0.subrange(2, rest0.len() as int);
        assert(rest =~= s@.subrange(i + 2, n as int));
        if c2 == '"' || c2 == '\\' || c2 == '/' {
            push_char(&mut out, c2);
            i = i + 2;
        } else if c2 == 'b' {
            push_char(&mut out, '\u{0008}');
            i = i + 2;
        } else if c2 == 'f' {
            push_char(&mut out, '\u{000c}');
            i = i + 2;
        } else if c2 == 'n' {
            push_char(&mut out, '\n');
            i = i + 2;
        } else if c2 == 'r' {
            push_char(&mut out, '\r');
            i = i + 2;
        } else if c2 == 't' {
            push_char(&mut out, '\t');
            i = i + 2;
        } else if c2 == 'u' {
            let mut j = i + 2;
            let mut value: u32 = 0;
            while j < n && j - i < 6
                invariant
                    n == s@.len(),
                    i + 2 <= j <= n,
                    j <= i + 6,
                    value == hex_value(s@.subrange(i + 2, j as int)),
                decreases n - j,
            {
                proof {
                    lemma_hex_value_bound(s@.subrange(i + 2, j as int));
                    reveal_with_fuel(pow16, 5);
                    assert(pow16(3) == 4096);
                    assert(s@.subrange(i + 2, j + 1).drop_last() =~= s@.subrange(i + 2, j as int));
                }
                value = value * 16 + hex_digit_of(s[j]);
                j = j + 1;
            }
            let ghost k = j - (i + 2);
            assert(rest.take(k) =~= s@.subrange(i + 2, j as int));
            assert(rest.skip(k) =~= s@.subrange(j as int, n as int));
            if let Some(ch) = char_from_code(value) {
                push_char(&mut out, ch);
            }
            i = j;
        } else {
            i = i + 2;
        }
        assert(out@ + unescape(s@.subrange(i as int, n as int)) =~= unescape(s@));
    }
    assert(s@.subrange(n as int, n as int) =~= Seq::<char>::empty());
    out
}

/// The text of a quoted string without its opening and closing double quote.
pub fn trim_quotes_of(input: &str) -> (r: String)
    ensures
        r@ == trim_quotes(input@),
{
    let s = chars_of(input);
    let n = s.len();
    let i: usize = if n > 0 && s[0] == '"' {
        1
    } else {
        0
    };
    let j: usize = if i < n && s[n - 1] == '"' {
        n - 1
    } else {
        n
    };
    proof {
        let a = if s@.len() > 0 && s@[0] == '"' {
            s@.drop_first()
        } else {
            s@
        };
        assert(a =~= s@.subrange(i as int, n as int));
        if i < n && s@[n - 1] == '"' {
            assert(a.drop_last() =~= s@.subrange(i as int, j as int));
        } else {
            assert(a =~= s@.subrange(i as int, j as int));
        }
    }
    let mut out = String::new();
    let mut k = i;
    while k < j
        invariant
            n == s@.len(),
            i <= k <= j <= n,
            out@ == s@.subrange(i as int, k as int),
        decreases j - k,
    {
        push_char(&mut out, s[k]);
        k = k + 1;
        assert(out@ =~= s@.subrange(i as int, k as int));
    }
    out
}

/// The value of a block string with source text `raw`: GraphQL's
/// BlockStringValue of the text between the triple quotes, escaped triple
/// quotes unescaped.
pub fn normalize_block_string(raw: &str) -> (r: String)
    ensures
        r@ == block_value(raw@),
{
    let s = chars_of(raw);
    let n = s.len();
    let delimited = n >= 6 && s[0] == '"' && s[1] == '"' && s[2] == '"' && s[n - 3] == '"'
        && s[n - 2] == '"' && s[n - 1] == '"';
    let (from, to) = if delimited {
        (3, n - 3)
    } else {
        (0, n)
    };
    proof {
        if n >= 6 {
            assert(s@.take(3) == triple_quote() <==> (s@[0] == '"' && s@[1] == '"' && s@[2]
                == '"')) by {
                if s@[0] == '"' && s@[1] == '"' && s@[2] == '"' {
                    assert(s@.take(3) =~= triple_quote());
                }
            }
            assert(s@.skip(n - 3) == triple_quote() <==> (s@[n - 3] == '"' && s@[n - 2] == '"'
                && s@[n - 1] == '"')) by {
                if s@[n - 3] == '"' && s@[n - 2] == '"' && s@[n - 1] == '"' {
                    assert(s@.skip(n - 3) =~= triple_quote());
                }
            }
        }
        if !delimited {
            assert(s@.subrange(0, n as int) =~= s@);
        }
    }
    assert(s@.subrange(from as int, to as int) == block_content(raw@));
    let u = unescape_triple_quotes_of(&s, from, to);
    let nn = normalize_newlines_of(&u);
    let lines = split_lines_of(&nn);
    let ghost ls = views(lines@);
    let ci = common_indent_of(&lines);
    let dl = dedent_of(&lines, ci);
    let ghost d = views(dl@);
    proof {
        lemma_split_lines_nonempty(nn@);
        assert(ls.drop_first() =~= ls.subrange(1, ls.len() as int));
    }
    assert(d == dedent(ls, min_indent(ls.drop_first())));
    let (a, b) = nonblank_range(&dl);
    join_range(&dl, a, b)
}

/// The characters of `s[from..to]`, each `\"""` turned into `"""`.
fn unescape_triple_quotes_of(s: &Vec<char>, from: usize, to: usize) -> (r: Vec<char>)
    requires
        from <= to <= s@.len(),
    ensures
        r@ == unescape_triple_quotes(s@.subrange(from as int, to as int)),
{
    let ghost content = s@.subrange(from as int, to as int);
    let mut out: Vec<char> = Vec::new();
    let mut i = from;
    while i < to
        invariant
            from <= i <= to <= s@.len(),
            content == s@.subrange(from as int, to as int),
            out@ + unescape_triple_quotes(s@.subrange(i as int, to as int)) == unescape_triple_quotes(
                content,
            ),
        decreases to - i,
    {
        let ghost rest0 = s@.subrange(i as int, to as int);
        if to - i > 3 && s[i] == '\\' && s[i + 1] == '"' && s[i + 2] == '"' && s[i + 3] == '"' {
            assert(rest0.skip(4) =~= s@.subrange(i + 4, to as int));
            out.push('"');
            out.push('"');
            out.push('"');
            i = i + 4;
            assert(out@ + unescape_triple_quotes(s@.subrange(i as int, to as int)) =~= unescape_triple_quotes(
                content,
            ));
        } else {
            assert(rest0.drop_first() =~= s@.subrange(i + 1, to as int));
            out.push(s[i]);
            i = i + 1;
            assert(out@ + unescape_triple_quotes(s@.subrange(i as int, to as int)) =~= unescape_triple_quotes(
                content,
            ));
        }
    }
    assert(s@.subrange(to as int, to as int) =~= Seq::<char>::empty());
    assert(out@ =~= out@ + unescape_triple_quotes(Seq::<char>::empty()));
    out
}

/// `s` with each `\r\n` and each lone `\r` turned into `\n`.
fn normalize_newlines_of(s: &Vec<char>) -> (r: Vec<char>)
    ensures
        r@ == normalize_newlines(s@),
{
    let n = s.len();
    let mut out: Vec<char> = Vec::new();
    let mut i: usize = 0;
    assert(s@.subrange(0, n as int) =~= s@);
    while i < n
        invariant
            n == s@.len(),
            i <= n,
            out@ + normalize_newlines(s@.subrange(i as int, n as int)) == normalize_newlines(s@),
        decreases n - i,
    {
        let ghost rest0 = s@.subrange(i as int, n as int);
        let c = s[i];
        if c == '\r' {
            if i + 1 < n && s[i + 1] == '\n' {
                assert(rest0.subrange(2, rest0.len() as int) =~= s@.subrange(i + 2, n as int));
                i = i + 2;
            } else {
                assert(rest0.drop_first() =~= s@.subrange(i + 1, n as int));
                i = i + 1;
            }
            out.push('\n');
        } else {
            assert(rest0.drop_first() =~= s@.subrange(i + 1, n as int));
            out.push(c);
            i = i + 1;
        }
        assert(out@ + normalize_newlines(s@.subrange(i as int, n as int)) =~= normalize_newlines(s@));
    }
    assert(s@.subrange(n as int, n as int) =~= Seq::<char>::empty());
    assert(out@ =~= out@ + normalize_newlines(Seq::<char>::empty()));
    out
}

/// The character sequences of a vector of lines.
pub open spec fn views(v: Seq<Vec<char>>) -> Seq<Seq<char>> {
    Seq::new(v.len(), |i: int| v[i]@)
}

proof fn lemma_split_lines_nonempty(s: Seq<char>)
    ensures
        split_lines(s).len() >= 1,
    decreases s.len(),
{
    if s.len() > 0 {
        lemma_split_lines_nonempty(s.drop_last());
    }
}

fn split_lines_of(s: &Vec<char>) -> (r: Vec<Vec<char>>)
    ensures
        views(r@) == split_lines(s@),
{
    let n = s.len();
    let mut lines: Vec<Vec<char>> = Vec::new();
    let mut cur: Vec<char> = Vec::new();
    let mut i: usize = 0;
    assert(s@.take(0) =~= Seq::<char>::empty());
    assert(views(lines@).push(cur@) =~= split_lines(s@.take(0)));
    while i < n
        invariant
            n == s@.len(),
            i <= n,
            views(lines@).push(cur@) == split_lines(s@.take(i as int)),
        decreases n - i,
    {
        let ghost t = s@.take(i + 1);
        assert(t.drop_last() =~= s@.take(i as int));
        assert(t.last() == s@[i as int]);
        proof {
            lemma_split_lines_nonempty(t.drop_last());
        }
        let ghost old_lines = lines@;
        let ghost old_cur = cur@;
        if s[i] == '\n' {
            lines.push(cur);
            cur = Vec::new();
            assert(views(lines@) =~= views(old_lines).push(old_cur));
            assert(views(lines@).push(cur@) =~= split_lines(t));
        } else {
            cur.push(s[i]);
            assert(views(lines@).push(cur@) =~= split_lines(t));
        }
        i = i + 1;
    }
    assert(s@.take(n as int) =~= s@);
    let ghost old_lines = lines@;
    let ghost old_cur = cur@;
    lines.push(cur);
    assert(views(lines@) =~= views(old_lines).push(old_cur));
    lines
}

proof fn lemma_indent_step(l: Seq<char>, k: int)
    requires
        0 <= k < l.len(),
    ensures
        is_ws(l[k]) ==> indent(l.skip(k)) == 1 + indent(l.skip(k + 1)),
        !is_ws(l[k]) ==> indent(l.skip(k)) == 0,
{
    assert(l.skip(k)[0] == l[k]);
    assert(l.skip(k).drop_first() =~= l.skip(k + 1));
}

fn indent_of(l: &Vec<char>) -> (r: usize)
    ensures
        r == indent(l@),
{
    let n = l.len();
    let mut k: usize = 0;
    assert(l@.skip(0) =~= l@);
    while k < n && (l[k] == ' ' || l[k] == '\t')
        invariant
            n == l@.len(),
            k <= n,
            indent(l@) == k + indent(l@.skip(k as int)),
        decreases n - k,
    {
        proof {
            lemma_indent_step(l@, k as int);
        }
        k = k + 1;
    }
    if k < n {
        proof {
            lemma_indent_step(l@, k as int);
        }
    } else {
        assert(l@.skip(k as int) =~= Seq::<char>::empty());
    }
    k
}

fn blank_of(l: &Vec<char>) -> (r: bool)
    ensures
        r == blank(l@),
{
    indent_of(l) == l.len()
}

pub open spec fn opt_nat(o: Option<usize>) -> Option<nat> {
    match o {
        Some(m) => Some(m as nat),
        None => None,
    }
}

/// The least indentation of the lines after the first that are not blank.
fn common_indent_of(lines: &Vec<Vec<char>>) -> (r: Option<usize>)
    ensures
        lines@.len() >= 1 ==> opt_nat(r) == min_indent(views(lines@).subrange(1, lines@.len() as int)),
{
    let n = lines.len();
    let ghost ls = views(lines@);
    let mut ci: Option<usize> = None;
    if n == 0 {
        return None;
    }
    let mut k: usize = 1;
    assert(ls.subrange(1, 1) =~= Seq::<Seq<char>>::empty());
    while k < n
        invariant
            n == lines@.len(),
            ls == views(lines@),
            1 <= k <= n,
            opt_nat(ci) == min_indent(ls.subrange(1, k as int)),
        decreases n - k,
    {
        let ghost sub = ls.subrange(1, k + 1);
        assert(sub.drop_last() =~= ls.subrange(1, k as int));
        assert(sub.last() == lines@[k as int]@);
        let ind = indent_of(&lines[k]);
        if ind != lines[k].len() {
            ci = match ci {
                None => Some(ind),
                Some(m) => Some(if ind < m {
                    ind
                } else {
                    m
                }),
            };
        }
        k = k + 1;
    }
    ci
}

/// `l` from index `m` on.
fn skip_of(l: &Vec<char>, m: usize) -> (r: Vec<char>)
    requires
        m <= l@.len(),
    ensures
        r@ == l@.skip(m as int),
{
    let mut out: Vec<char> = Vec::new();
    let mut k = m;
    while k < l.len()
        invariant
            m <= k <= l@.len(),
            out@ == l@.subrange(m as int, k as int),
        decreases l@.len() - k,
    {
        out.push(l[k]);
        k = k + 1;
        assert(out@ =~= l@.subrange(m as int, k as int));
    }
    assert(out@ =~= l@.skip(m as int));
    out
}

fn dedent_of(lines: &Vec<Vec<char>>, ci: Option<usize>) -> (r: Vec<Vec<char>>)
    ensures
        views(r@) == dedent(views(lines@), opt_nat(ci)),
{
    let n = lines.len();
    let ghost target = dedent(views(lines@), opt_nat(ci));
    let mut out: Vec<Vec<char>> = Vec::new();
    let mut k: usize = 0;
    while k < n
        invariant
            n == lines@.len(),
            k <= n,
            target == dedent(views(lines@), opt_nat(ci)),
            views(out@) == target.take(k as int),
        decreases n - k,
    {
        let l = &lines[k];
        let d = if k == 0 || ci.is_none() {
            skip_of(l, 0)
        } else {
            let m = ci.unwrap();
            if m <= l.len() {
                skip_of(l, m)
            } else {
                Vec::new()
            }
        };
        proof {
            assert(l@.skip(0) =~= l@);
            assert(views(lines@)[k as int] == l@);
            assert(d@ == target[k as int]);
        }
        let ghost old_out = out@;
        out.push(d);
        assert(views(out@) =~= views(old_out).push(d@));
        assert(target.take(k + 1) =~= target.take(k as int).push(target[k as int]));
        k = k + 1;
        assert(views(out@) =~= target.take(k as int));
    }
    assert(target.take(n as int) =~= target);
    out
}

/// The lines from the first to the last that is not blank: `a..b`.
fn nonblank_range(dl: &Vec<Vec<char>>) -> (r: (usize, usize))
    ensures
        r.0 <= r.1 <= dl@.len(),
        drop_blank_back(drop_blank_front(views(dl@))) == views(dl@).subrange(r.0 as int, r.1 as int),
{
    let n = dl.len();
    let ghost d = views(dl@);
    let mut a: usize = 0;
    assert(d.skip(0) =~= d);
    while a < n && blank_of(&dl[a])
        invariant
            n == dl@.len(),
            d == views(dl@),
            a <= n,
            drop_blank_front(d) == drop_blank_front(d.skip(a as int)),
        decreases n - a,
    {
        assert(d.skip(a as int)[0] == d[a as int]);
        assert(d.skip(a as int).drop_first() =~= d.skip(a + 1));
        a = a + 1;
    }
    if a < n {
        assert(d.skip(a as int)[0] == d[a as int]);
    } else {
        assert(d.skip(a as int) =~= Seq::<Seq<char>>::empty());
    }
    assert(d.skip(a as int) =~= d.subrange(a as int, n as int));
    let mut b: usize = n;
    while b > a && blank_of(&dl[b - 1])
        invariant
            n == dl@.len(),
            d == views(dl@),
            a <= b <= n,
            drop_blank_back(d.subrange(a as int, n as int)) == drop_blank_back(d.subrange(a as int, b as int)),
        decreases b,
    {
        let ghost sub = d.subrange(a as int, b as int);
        assert(sub.last() == d[b - 1]);
        assert(sub.drop_last() =~= d.subrange(a as int, b - 1));
        b = b - 1;
    }
    let ghost sub = d.subrange(a as int, b as int);
    if b > a {
        assert(sub.last() == d[b - 1]);
    } else {
        assert(sub =~= Seq::<Seq<char>>::empty());
    }
    (a, b)
}

/// The lines `a..b` joined by `\n`.
fn join_range(dl: &Vec<Vec<char>>, a: usize, b: usize) -> (r: String)
    requires
        a <= b <= dl@.len(),
    ensures
        r@ == join_lines(views(dl@).subrange(a as int, b as int)),
{
    let ghost d = views(dl@);
    let mut out = String::new();
    let mut k = a;
    assert(d.subrange(a as int, a as int) =~= Seq::<Seq<char>>::empty());
    while k < b
        invariant
            a <= k <= b <= dl@.len(),
            d == views(dl@),
            out@ == join_lines(d.subrange(a as int, k as int)),
        decreases b - k,
    {
        let ghost base = if k > a {
            out@.push('\n')
        } else {
            out@
        };
        if k > a {
            push_char(&mut out, '\n');
        }
        let l = &dl[k];
        let mut j: usize = 0;
        while j < l.len()
            invariant
                j <= l@.len(),
                out@ == base + l@.take(j as int),
            decreases l@.len() - j,
        {
            push_char(&mut out, l[j]);
            j = j + 1;
            assert(out@ =~= base + l@.take(j as int));
        }
        assert(l@.take(l@.len() as int) =~= l@);
        let ghost sub = d.subrange(a as int, k + 1);
        assert(sub.last() == d[k as int]);
        assert(sub.drop_last() =~= d.subrange(a as int, k as int));
        if k > a {
            assert(out@ =~= join_lines(sub.drop_last()) + seq!['\n'] + sub.last());
        } else {
            assert(sub =~= seq![d[k as int]]);
        }
        k = k + 1;
    }
    out
}

} // verus!
