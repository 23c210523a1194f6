//! Scripts: files whose first line names the program that runs them.
use vstd::prelude::*;
use vstd::string::StrSliceExecFns;
use vstd::utf8::{decode_utf8, valid_utf8};
use crate::hal::errno::Errno;
use crate::proc::exec::elf::{
    header_error, headers_are, parse_elf, parsed_is, texts_fit, ElfError, ElfHeader, ElfParseResult, ProgramHeader,
};
use crate::proc::exec::text::utf8_text;

verus! {

/// Scripts that run scripts are followed this far.
pub const MAX_SHEBANG_DEPTH: u32 = 4;

/// At most this many bytes of the first line count.
pub const MAX_LINE: usize = 254;

/// Whether the character is white space.
pub open spec fn white(c: char) -> bool {
    let n = c as u32;
    ||| 9 <= n <= 13
    ||| n == 32
    ||| n == 0x85
    ||| n == 0xA0
    ||| n == 0x1680
    ||| 0x2000 <= n <= 0x200A
    ||| n == 0x2028
    ||| n == 0x2029
    ||| n == 0x202F
    ||| n == 0x205F
    ||| n == 0x3000
}

/// Whether the character is white space of ASCII.
pub open spec fn white_ascii(c: char) -> bool {
    let n = c as u32;
    n == 9 || n == 10 || n == 12 || n == 13 || n == 32
}

fn is_white(c: char) -> (r: bool)
    ensures
        r == white(c),
{
    let n = c as u32;
    (9 <= n && n <= 13) || n == 32 || n == 0x85 || n == 0xA0 || n == 0x1680 || (0x2000 <= n && n
        <= 0x200A) || n == 0x2028 || n == 0x2029 || n == 0x202F || n == 0x205F || n == 0x3000
}

fn is_white_ascii(c: char) -> (r: bool)
    ensures
        r == white_ascii(c),
{
    let n = c as u32;
    n == 9 || n == 10 || n == 12 || n == 13 || n == 32
}

/// The text without white space before it.
pub open spec fn trim_start(s: Seq<char>) -> Seq<char>
    decreases s.len(),
{
    if s.len() > 0 && white(s[0]) {
        trim_start(s.drop_first())
    } else {
        s
    }
}

/// The text without white space behind it.
pub open spec fn trim_end(s: Seq<char>) -> Seq<char>
    decreases s.len(),
{
    if s.len() > 0 && white(s.last()) {
        trim_end(s.drop_last())
    } else {
        s
    }
}

/// The text without white space round it.
pub open spec fn trim(s: Seq<char>) -> Seq<char> {
    trim_end(trim_start(s))
}

/// Where the text from `from` to `to` starts and ends without white space round it.
fn trimmed(s: &str, from: usize, to: usize) -> (r: (usize, usize))
    requires
        from <= to <= s@.len(),
    ensures
        from <= r.0 <= r.1 <= to,
        s@.subrange(r.0 as int, r.1 as int) == trim(s@.subrange(from as int, to as int)),
{
    let ghost all = s@.subrange(from as int, to as int);
    let mut a: usize = from;
    while a < to && is_white(s.get_char(a))
        invariant
            from <= a <= to <= s@.len(),
            trim_start(all) == trim_start(s@.subrange(a as int, to as int)),
        decreases to - a,
    {
        assert(s@.subrange(a as int, to as int).drop_first() =~= s@.subrange(a + 1, to as int));
        a += 1;
    }
    let ghost mid = s@.subrange(a as int, to as int);
    assert(trim_start(all) == mid);
    let mut b: usize = to;
    while a < b && is_white(s.get_char(b - 1))
        invariant
            from <= a <= b <= to <= s@.len(),
            trim_end(mid) == trim_end(s@.subrange(a as int, b as int)),
        decreases b,
    {
        assert(s@.subrange(a as int, b as int).drop_last() =~= s@.subrange(a as int, b - 1));
        b -= 1;
    }
    (a, b)
}

/// Where the first line ends: at a line feed or a zero, or where it is too long.
pub open spec fn line_end(b: Seq<u8>, i: int) -> int
    decreases b.len() - i,
{
    if i < 2 || i >= b.len() || i >= 2 + MAX_LINE || b[i] == 10 || b[i] == 0 {
        i
    } else {
        line_end(b, i + 1)
    }
}

/// The text up to the first white space of ASCII.
pub open spec fn word_end(s: Seq<char>, i: int) -> int
    decreases s.len() - i,
{
    if i < 0 || i >= s.len() || white_ascii(s[i]) {
        i
    } else {
        word_end(s, i + 1)
    }
}

/// The program that runs a script, and the argument it is given.
pub open spec fn shebang_of(b: Seq<u8>) -> Option<(Seq<char>, Option<Seq<char>>)> {
    if b.len() < 4 || b[0] != 0x23 || b[1] != 0x21 {
        None
    } else {
        let raw = b.subrange(2, line_end(b, 2));
        if !valid_utf8(raw) {
            None
        } else {
            let line = trim(decode_utf8(raw));
            let w = word_end(line, 0);
            if line.len() == 0 {
                None
            } else {
                let rest = if w < line.len() {
                    trim(line.subrange(w + 1, line.len() as int))
                } else {
                    Seq::empty()
                };
                Some(
                    (
                        line.subrange(0, w),
                        if rest.len() > 0 {
                            Some(rest)
                        } else {
                            None
                        },
                    ),
                )
            }
        }
    }
}

/// The text of a string.
pub open spec fn text_of(s: Option<String>) -> Option<Seq<char>> {
    match s {
        Some(s) => Some(s@),
        None => None,
    }
}

/// Texts that are the same.
pub open spec fn same_text(s: Option<String>, t: Option<Seq<char>>) -> bool {
    match (s, t) {
        (Some(s), Some(t)) => s@ == t,
        (None, None) => true,
        _ => false,
    }
}

proof fn lemma_word_end(s: Seq<char>, i: int)
    requires
        0 <= i <= s.len(),
    ensures
        i <= word_end(s, i) <= s.len(),
    decreases s.len() - i,
{
    if i < s.len() && !white_ascii(s[i]) {
        lemma_word_end(s, i + 1);
    }
}

/// What is trimmed at the start is white, and what is left does not start so.
proof fn lemma_trim_start(s: Seq<char>) -> (k: int)
    ensures
        0 <= k <= s.len(),
        trim_start(s) == s.subrange(k, s.len() as int),
        forall|i: int| 0 <= i < k ==> white(#[trigger] s[i]),
        k < s.len() ==> !white(s[k]),
    decreases s.len(),
{
    if s.len() > 0 && white(s[0]) {
        let t = s.drop_first();
        let j = lemma_trim_start(t);
        assert(t.subrange(j, t.len() as int) =~= s.subrange(j + 1, s.len() as int));
        assert forall|i: int| 0 <= i < j + 1 implies white(#[trigger] s[i]) by {
            if i > 0 {
                assert(t[i - 1] == s[i]);
            }
        }
        j + 1
    } else {
        assert(s.subrange(0, s.len() as int) =~= s);
        0
    }
}

/// What is trimmed at the end is white, and what is left does not end so.
proof fn lemma_trim_end(s: Seq<char>) -> (k: int)
    ensures
        0 <= k <= s.len(),
        trim_end(s) == s.subrange(0, k),
        forall|i: int| k <= i < s.len() ==> white(#[trigger] s[i]),
        k > 0 ==> !white(s[k - 1]),
    decreases s.len(),
{
    if s.len() > 0 && white(s.last()) {
        let t = s.drop_last();
        let j = lemma_trim_end(t);
        assert(t.subrange(0, j) =~= s.subrange(0, j));
        assert forall|i: int| j <= i < s.len() implies white(#[trigger] s[i]) by {
            if i < t.len() {
                assert(t[i] == s[i]);
            }
        }
        j
    } else {
        assert(s.subrange(0, s.len() as int) =~= s);
        s.len() as int
    }
}

/// What is trimmed on both sides is white, and what is left neither starts nor ends so.
proof fn lemma_trim(s: Seq<char>) -> (r: (int, int))
    ensures
        0 <= r.0 <= r.1 <= s.len(),
        trim(s) == s.subrange(r.0, r.1),
        forall|i: int| 0 <= i < r.0 || r.1 <= i < s.len() ==> white(#[trigger] s[i]),
        r.0 < r.1 ==> !white(s[r.0]) && !white(s[r.1 - 1]),
{
    let a = lemma_trim_start(s);
    let t = s.subrange(a, s.len() as int);
    let b = lemma_trim_end(t);
    assert(t.subrange(0, b) =~= s.subrange(a, a + b));
    assert forall|i: int| 0 <= i < a || a + b <= i < s.len() implies white(#[trigger] s[i]) by {
        if i >= a + b {
            assert(t[i - a] == s[i]);
        }
    }
    if b > 0 {
        assert(t[b - 1] == s[a + b - 1]);
        assert(a < s.len());
    }
    (a, a + b)
}

/// Where the first line ends.
proof fn lemma_line_end(b: Seq<u8>, i: int)
    requires
        2 <= i <= b.len(),
        i <= 256,
    ensures
        i <= line_end(b, i) <= b.len(),
        line_end(b, i) <= 256,
        forall|j: int| i <= j < line_end(b, i) ==> #[trigger] b[j] != 10 && b[j] != 0,
        line_end(b, i) < b.len() && line_end(b, i) < 256 ==> b[line_end(b, i)] == 10
            || b[line_end(b, i)] == 0,
    decreases b.len() - i,
{
    if !(i >= b.len() || i >= 256 || b[i] == 10 || b[i] == 0) {
        lemma_line_end(b, i + 1);
    }
}

/// Up to its end a word has no white space of ASCII.
proof fn lemma_word(s: Seq<char>, i: int)
    requires
        0 <= i <= s.len(),
    ensures
        i <= word_end(s, i) <= s.len(),
        forall|j: int| i <= j < word_end(s, i) ==> !white_ascii(#[trigger] s[j]),
        word_end(s, i) < s.len() ==> white_ascii(s[word_end(s, i)]),
    decreases s.len() - i,
{
    if i < s.len() && !white_ascii(s[i]) {
        lemma_word(s, i + 1);
    }
}

/// Blanks, tabs and the ends of lines are white space, and no other character of ASCII that can be
/// printed is.
pub proof fn law_white_space(c: char)
    ensures
        (c as u32 == 32 || c as u32 == 9 || c as u32 == 10 || c as u32 == 13) ==> white(c)
            && white_ascii(c),
        33 <= c as u32 <= 126 ==> !white(c) && !white_ascii(c),
        white_ascii(c) ==> white(c),
        white(c) && c as u32 > 126 ==> c as u32 == 0x85 || c as u32 == 0xA0 || c as u32 >= 0x1680,
        white(c) && c as u32 <= 126 ==> c as u32 == 32 || 9 <= c as u32 <= 13,
        (c as u32 == 11 || c as u32 == 12) ==> white(c),
{
}

/// A script is a file of at least four bytes that starts with `#!` and has something but white space
/// on its first line, which ends at a line feed, at a zero, after 254 bytes or with the file.  That
/// line is: white space, the program, a word; then, where more follows, white space, the argument,
/// which is all the rest, and white space.
pub proof fn law_first_line_names_program(b: Seq<u8>, e: int) -> (r: (int, int, int, int))
    requires
        2 <= e <= b.len(),
        e <= 256,
        forall|j: int| 2 <= j < e ==> #[trigger] b[j] != 10 && b[j] != 0,
        e < b.len() && e < 256 ==> b[e] == 10 || b[e] == 0,
    ensures
        ({
            let line = decode_utf8(b.subrange(2, e));
            &&& shebang_of(b) is Some <==> b.len() >= 4 && b[0] == 0x23 && b[1] == 0x21 && valid_utf8(
                b.subrange(2, e),
            ) && exists|i: int| 0 <= i < line.len() && !white(#[trigger] line[i])
            &&& shebang_of(b) matches Some((interp, arg)) ==> {
                let (p, q, u, v) = r;
                &&& 0 <= p < q <= u <= v <= line.len()
                &&& forall|i: int| 0 <= i < p ==> white(#[trigger] line[i])
                &&& interp == line.subrange(p, q)
                &&& !white(line[p])
                &&& forall|i: int| p <= i < q ==> !white_ascii(#[trigger] line[i])
                &&& q < u ==> white_ascii(line[q])
                &&& forall|i: int| q < i < u ==> white(#[trigger] line[i])
                &&& u < v ==> q < u && arg == Some(line.subrange(u, v)) && !white(line[u]) && !white(
                    line[v - 1],
                )
                &&& u == v ==> arg is None
                &&& forall|i: int| v <= i < line.len() ==> white(#[trigger] line[i])
            }
        }),
{
    if !(b.len() >= 4 && b[0] == 0x23 && b[1] == 0x21) {
        return (0, 0, 0, 0);
    }
    lemma_line_end(b, 2);
    let f = line_end(b, 2);
    if f < e {
        assert(b[f] != 10 && b[f] != 0);
    }
    if e < f {
        assert(b[e] != 10 && b[e] != 0);
    }
    let raw = b.subrange(2, e);
    if !valid_utf8(raw) {
        return (0, 0, 0, 0);
    }
    let text = decode_utf8(raw);
    let (x, y) = lemma_trim(text);
    let line = trim(text);
    if x == y {
        assert(line.len() == 0);
        return (0, 0, 0, 0);
    }
    assert(!white(text[x]));
    lemma_word(line, 0);
    let w = word_end(line, 0);
    law_white_space(line[0]);
    assert(line[0] == text[x]);
    assert(w > 0);
    let q = x + w;
    assert(line.subrange(0, w) =~= text.subrange(x, q));
    assert forall|i: int| x <= i < q implies !white_ascii(#[trigger] text[i]) by {
        assert(line[i - x] == text[i]);
    }
    if w < line.len() {
        let rest = line.subrange(w + 1, line.len() as int);
        let (c, d) = lemma_trim(rest);
        let u = q + 1 + c;
        let v = q + 1 + d;
        assert(line[w] == text[q]);
        assert forall|i: int| q < i < u implies white(#[trigger] text[i]) by {
            assert(rest[i - q - 1] == text[i]);
        }
        assert forall|i: int| v <= i < text.len() implies white(#[trigger] text[i]) by {
            if i < y {
                assert(rest[i - q - 1] == text[i]);
            }
        }
        assert(rest.subrange(c, d) =~= text.subrange(u, v));
        if c < d {
            assert(rest[c] == text[u]);
            assert(rest[d - 1] == text[v - 1]);
        }
        (x, q, u, v)
    } else {
        (x, q, q, q)
    }
}

/// The program that runs a script, and the argument it is given.
pub fn parse_shebang(bytes: &[u8]) -> (r: Option<(String, Option<String>)>)
    ensures
        match (r, shebang_of(bytes@)) {
            (Some((interp, arg)), Some((i, a))) => interp@ == i && same_text(arg, a),
            (None, None) => true,
            _ => false,
        },
{
    let len = bytes.len();
    if len < 4 || bytes[0] != 0x23 || bytes[1] != 0x21 {
        return None;
    }
    let mut end: usize = 2;
    let mut raw: Vec<u8> = Vec::new();
    assert(raw@ =~= bytes@.subrange(2, 2));
    while end < len && end < 2 + MAX_LINE && bytes[end] != 10 && bytes[end] != 0
        invariant
            2 <= end <= len,
            len == bytes@.len(),
            raw@ == bytes@.subrange(2, end as int),
            line_end(bytes@, 2) == line_end(bytes@, end as int),
        decreases len - end,
    {
        raw.push(bytes[end]);
        assert(raw@ =~= bytes@.subrange(2, end + 1));
        end += 1;
    }
    let text = match utf8_text(raw.as_slice()) {
        None => {
            return None;
        },
        Some(t) => t,
    };
    let s = text.as_str();
    let n = s.unicode_len();
    let (a, b) = trimmed(s, 0, n);
    let ghost line = s@.subrange(a as int, b as int);
    proof {
        assert(s@.subrange(0, n as int) =~= s@);
        assert(line == trim(s@));
        lemma_word_end(line, 0);
    }
    if a == b {
        return None;
    }
    let mut w: usize = a;
    while w < b && !is_white_ascii(s.get_char(w))
        invariant
            a <= w <= b <= s@.len(),
            line == s@.subrange(a as int, b as int),
            word_end(line, 0) == word_end(line, w - a),
        decreases b - w,
    {
        assert(line[w - a] == s@[w as int]);
        w += 1;
    }
    proof {
        if w < b {
            assert(line[w - a] == s@[w as int]);
        }
        assert(word_end(line, 0) == w - a);
        assert(line.subrange(0, w - a) =~= s@.subrange(a as int, w as int));
    }
    let interp = s.substring_char(a, w).to_owned();
    let mut arg: Option<String> = None;
    if w < b {
        let (c, d) = trimmed(s, w + 1, b);
        assert(line.subrange(w - a + 1, line.len() as int) =~= s@.subrange(w + 1, b as int));
        if c < d {
            arg = Some(s.substring_char(c, d).to_owned());
        }
    }
    Some((interp, arg))
}

/// What is to be done with a file that is to be run.
#[derive(Debug)]
pub enum ExecStep {
    /// Run another program in its place, with other arguments.
    Interpret { interp: String, argv: Vec<String> },
    /// It is a program.
    Run(ElfParseResult),
    /// It cannot be run.
    Fail(Errno),
}

/// The arguments for the program that runs a script: its own name, the argument that the
/// script gives it, the path of the script, and the arguments of the script but for the
/// first.
pub open spec fn script_argv(
    interp: Seq<char>,
    arg: Option<Seq<char>>,
    path: Seq<char>,
    argv: Seq<String>,
) -> Seq<Seq<char>> {
    let first = match arg {
        Some(a) => seq![interp, a, path],
        None => seq![interp, path],
    };
    first + Seq::new(
        (if argv.len() > 0 {
            argv.len() - 1
        } else {
            0
        }) as nat,
        |i: int| argv[i + 1]@,
    )
}

/// The program that runs a script gets its own name, the argument that the script gives it where
/// there is one, the path of the script, and then every argument of the script but the first, in
/// order and none left out.
pub proof fn law_script_keeps_arguments(
    interp: Seq<char>,
    arg: Option<Seq<char>>,
    path: Seq<char>,
    argv: Seq<String>,
    now: Seq<Seq<char>>,
)
    requires
        now == script_argv(interp, arg, path, argv),
    ensures
        ({
            let own: int = if arg is Some {
                3
            } else {
                2
            };
            &&& argv.len() == 0 ==> now.len() == own
            &&& argv.len() > 0 ==> now.len() == own + argv.len() - 1
            &&& now[0] == interp
            &&& arg matches Some(a) ==> now[1] == a
            &&& now[own - 1] == path
            &&& forall|i: int| 1 <= i < argv.len() ==> now[own + i - 1] == (#[trigger] argv[i])@
        }),
{
    let own: int = if arg is Some {
        3
    } else {
        2
    };
    assert forall|i: int| 1 <= i < argv.len() implies now[own + i - 1] == (#[trigger] argv[i])@ by {
        assert(now[own + i - 1] == argv[i - 1 + 1]@);
    }
}

/// The texts of strings.
pub open spec fn texts(v: Seq<String>) -> Seq<Seq<char>> {
    Seq::new(v.len(), |i: int| v[i]@)
}

/// Every reason why a file cannot be run is the same to those who asked.
pub fn elf_err_to_errno(_e: ElfError) -> (r: Errno)
    ensures
        r == Errno::Enoexec,
{
    Errno::Enoexec
}

/// Decide what is to be done with a file whose first page is `page0`.
pub fn examine(page0: &[u8], path: &String, argv: &Vec<String>, depth: u32) -> (r: ExecStep)
    ensures
        match shebang_of(page0@) {
            Some((i, a)) => if depth >= MAX_SHEBANG_DEPTH {
                r == ExecStep::Fail(Errno::Enoexec)
            } else {
                r matches ExecStep::Interpret { interp, argv: now } && interp@ == i && texts(now@)
                    == script_argv(i, a, path@, argv@)
            },
            None => exists|h: Result<(ElfHeader, Vec<ProgramHeader>), ElfError>| #[trigger]
                headers_are(page0@, h) && match h {
                    Ok((ehdr, phdrs)) => if header_error(ehdr) is Some || texts_fit(phdrs@) {
                        match r {
                            ExecStep::Run(p) => parsed_is(page0@, ehdr, phdrs@, Ok(p)),
                            ExecStep::Fail(e) => e == Errno::Enoexec && exists|e2: ElfError| #[trigger]
                                parsed_is(page0@, ehdr, phdrs@, Err(e2)),
                            _ => false,
                        }
                    } else {
                        r == ExecStep::Fail(Errno::Enoexec)
                    },
                    Err(_) => r == ExecStep::Fail(Errno::Enoexec),
                },
        },
        r matches ExecStep::Interpret { interp, argv: now } ==> {
            let rest: int = if argv@.len() > 0 {
                argv@.len() - 1
            } else {
                0
            };
            let own: int = now@.len() - rest;
            &&& depth < 4
            &&& page0@.len() >= 4 && page0@[0] == 0x23 && page0@[1] == 0x21
            &&& own == 2 || own == 3
            &&& shebang_of(page0@) matches Some((i, a)) && i == interp@ && (a is Some <==> own == 3) && (
            a matches Some(x) ==> now@[1]@ == x)
            &&& now@[0]@ == interp@
            &&& now@[own - 1]@ == path@
            &&& forall|i: int| 1 <= i < argv@.len() ==> now@[own + i - 1]@ == (#[trigger] argv@[i])@
        },
        shebang_of(page0@) is Some && depth < 4 ==> r is Interpret,
        shebang_of(page0@) is Some && depth >= 4 ==> r == ExecStep::Fail(Errno::Enoexec),
        r is Run ==> !(page0@.len() >= 4 && page0@[0] == 0x23 && page0@[1] == 0x21 && shebang_of(
            page0@,
        ) is Some),
{
    if let Some((interp, arg)) = parse_shebang(page0) {
        if depth >= MAX_SHEBANG_DEPTH {
            return ExecStep::Fail(Errno::Enoexec);
        }
        let ghost i = interp@;
        let ghost a = text_of(arg);
        let mut now: Vec<String> = Vec::new();
        now.push(interp.clone());
        if let Some(s) = arg {
            now.push(s);
        }
        now.push(path.clone());
        let ghost first = match a {
            Some(x) => seq![i, x, path@],
            None => seq![i, path@],
        };
        assert(texts(now@) =~= first);
        let mut k: usize = 1;
        while k < argv.len()
            invariant
                1 <= k,
                argv@.len() > 0 ==> k <= argv@.len(),
                argv@.len() == 0 ==> k == 1,
                texts(now@) == first + Seq::new((k - 1) as nat, |j: int| argv@[j + 1]@),
            decreases argv@.len() - k,
        {
            let ghost before = now@;
            now.push(argv[k].clone());
            proof {
                assert(texts(now@) =~= texts(before).push(argv@[k as int]@));
                assert(first + Seq::new(k as nat, |j: int| argv@[j + 1]@) =~= (first + Seq::new(
                    (k - 1) as nat,
                    |j: int| argv@[j + 1]@,
                )).push(argv@[k as int]@));
            }
            k += 1;
        }
        assert(texts(now@) =~= script_argv(i, a, path@, argv@));
        proof {
            law_script_keeps_arguments(i, a, path@, argv@, texts(now@));
            let t = texts(now@);
            assert(t.len() == now@.len());
            let own: int = if a is Some {
                3
            } else {
                2
            };
            assert(now@[0]@ == t[0]);
            assert(now@[1]@ == t[1]);
            assert(now@[own - 1]@ == t[own - 1]);
            assert forall|i: int| 1 <= i < argv@.len() implies now@[own + i - 1]@ == (
            #[trigger] argv@[i])@ by {
                assert(t[own + i - 1] == argv@[i]@);
            }
        }
        return ExecStep::Interpret { interp, argv: now };
    }
    match parse_elf(page0) {
        Ok(p) => ExecStep::Run(p),
        Err(e) => ExecStep::Fail(elf_err_to_errno(e)),
    }
}

} // verus!
