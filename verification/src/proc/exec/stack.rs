//! The first page of a program's stack: arguments, environment and auxiliary vector.
use vstd::prelude::*;
use vstd::utf8::encode_utf8;
use crate::hal::errno::Errno;
use crate::proc::exec::raw::le;

verus! {

/// An entry of the auxiliary vector.
#[derive(Debug, Clone, Copy, PartialEq, Eq, Structural)]
pub struct AuxvEntry {
    pub atype: u64,
    pub value: u64,
}

/// End of the vector.
pub const AT_NULL: u64 = 0;

/// Address of the program headers.
pub const AT_PHDR: u64 = 3;

/// Size of a program header.
pub const AT_PHENT: u64 = 4;

/// Number of program headers.
pub const AT_PHNUM: u64 = 5;

/// Page size.
pub const AT_PAGESZ: u64 = 6;

/// Entry point of the program.
pub const AT_ENTRY: u64 = 9;

/// Address of sixteen random bytes.
pub const AT_RANDOM: u64 = 25;

/// Size of the table of pointers on the stack.
#[derive(Debug)]
pub struct StackLayout {
    pub auxv: Vec<AuxvEntry>,
    /// Number of words.
    pub n_slots: usize,
    /// Number of bytes.
    pub table_bytes: usize,
}

/// Words of the table: the number of arguments, a pointer to each, a zero, a pointer to each
/// variable of the environment, a zero, and the vector.
pub open spec fn slots(argc: int, envc: int, auxc: int) -> int {
    1 + argc + 1 + envc + 1 + auxc * 2
}

impl StackLayout {
    pub fn build(argv: &Vec<String>, envp: &Vec<String>, auxv: &Vec<AuxvEntry>) -> (r: Self)
        requires
            slots(argv@.len() as int, envp@.len() as int, auxv@.len() as int) * 8 <= usize::MAX,
        ensures
            r.auxv@ == auxv@,
            r.n_slots == slots(argv@.len() as int, envp@.len() as int, auxv@.len() as int),
            r.table_bytes == r.n_slots * 8,
    {
        let n_slots = 1 + argv.len() + 1 + envp.len() + 1 + auxv.len() * 2;
        let mut copy: Vec<AuxvEntry> = Vec::new();
        let mut i: usize = 0;
        while i < auxv.len()
            invariant
                i <= auxv@.len(),
                copy@ == auxv@.take(i as int),
            decreases auxv@.len() - i,
        {
            assert(auxv@.take(i + 1) =~= auxv@.take(i as int).push(auxv@[i as int]));
            copy.push(auxv[i]);
            i += 1;
        }
        assert(auxv@.take(i as int) =~= auxv@);
        StackLayout { auxv: copy, n_slots, table_bytes: n_slots * 8 }
    }
}

/// Bytes of a string.
pub open spec fn bytes_of(s: String) -> Seq<u8> {
    encode_utf8(s@)
}

/// A string is kept in UTF-8.
pub proof fn law_strings_are_utf8(s: String)
    ensures
        bytes_of(s) == encode_utf8(s@),
{
}

/// Where the string pushed `n`-th starts, the first being pushed below `start`: each takes
/// its bytes and a zero.
pub open spec fn pushed(strs: Seq<String>, n: int, start: int) -> int
    decreases n,
{
    if n <= 0 {
        start
    } else {
        pushed(strs, n - 1, start) - bytes_of(strs[n - 1]).len() - 1
    }
}

/// The bytes and a zero are at `at`.
pub open spec fn string_at(page: Seq<u8>, at: int, b: Seq<u8>) -> bool {
    &&& forall|j: int| 0 <= j < b.len() ==> #[trigger] page[at + j] == b[j]
    &&& page[at + b.len()] == 0
}

/// The first `n` strings are where they were pushed.
pub open spec fn strings_at(page: Seq<u8>, strs: Seq<String>, n: int, start: int) -> bool {
    forall|i: int|
        0 <= i < n ==> string_at(page, pushed(strs, i + 1, start), bytes_of(#[trigger] strs[i]))
}

proof fn lemma_pushed(strs: Seq<String>, i: int, n: int, start: int)
    requires
        0 <= i <= n,
    ensures
        pushed(strs, n, start) <= pushed(strs, i, start) <= start,
    decreases n,
{
    if i < n {
        lemma_pushed(strs, i, n - 1, start);
    } else if n > 0 {
        lemma_pushed(strs, n - 1, n - 1, start);
    }
}

/// A string stays while only lower bytes change.
proof fn lemma_strings_kept(a: Seq<u8>, b: Seq<u8>, strs: Seq<String>, n: int, start: int)
    requires
        strings_at(a, strs, n, start),
        0 <= n <= strs.len(),
        start <= a.len(),
        0 <= pushed(strs, n, start),
        b.len() == a.len(),
        forall|x: int| pushed(strs, n, start) <= x < start ==> #[trigger] b[x] == a[x],
    ensures
        strings_at(b, strs, n, start),
{
    assert forall|i: int| 0 <= i < n implies string_at(
        b,
        pushed(strs, i + 1, start),
        bytes_of(#[trigger] strs[i]),
    ) by {
        lemma_pushed(strs, i + 1, n, start);
        lemma_pushed(strs, i, n, start);
        let at = pushed(strs, i + 1, start);
        let s = bytes_of(strs[i]);
        assert(string_at(a, at, s));
        assert forall|j: int| 0 <= j < s.len() implies #[trigger] b[at + j] == s[j] by {
            assert(a[at + j] == s[j]);
            assert(b[at + j] == a[at + j]);
        }
        assert(b[at + s.len()] == a[at + s.len()]);
    }
}

/// Push strings, the first highest.  Returns where they start.
fn push_strings(page: &mut Vec<u8>, strs: &Vec<String>, start: usize) -> (r: Vec<usize>)
    requires
        start <= old(page)@.len(),
        0 <= pushed(strs@, strs@.len() as int, start as int),
    ensures
        final(page)@.len() == old(page)@.len(),
        r@.len() == strs@.len(),
        forall|i: int| 0 <= i < r@.len() ==> #[trigger] r@[i] == pushed(strs@, i + 1, start as int),
        strings_at(final(page)@, strs@, strs@.len() as int, start as int),
        forall|x: int|
            0 <= x < old(page)@.len() && !(pushed(strs@, strs@.len() as int, start as int) <= x
                < start) ==> #[trigger] final(page)@[x] == old(page)@[x],
{
    let mut r: Vec<usize> = Vec::new();
    let mut at: usize = start;
    let mut i: usize = 0;
    let ghost p0 = page@;
    let ghost n = strs@.len() as int;
    while i < strs.len()
        invariant
            i <= n,
            n == strs@.len(),
            start <= p0.len(),
            p0 == old(page)@,
            page@.len() == p0.len(),
            0 <= pushed(strs@, n, start as int),
            at == pushed(strs@, i as int, start as int),
            at <= start,
            r@.len() == i,
            forall|j: int| 0 <= j < i ==> #[trigger] r@[j] == pushed(strs@, j + 1, start as int),
            strings_at(page@, strs@, i as int, start as int),
            forall|x: int|
                0 <= x < p0.len() && !(at <= x < start) ==> #[trigger] page@[x] == p0[x],
        decreases n - i,
    {
        let b = strs[i].as_str().as_bytes();
        let len = b.len();
        let ghost p1 = page@;
        proof {
            lemma_pushed(strs@, i + 1, n, start as int);
            assert(b@ == bytes_of(strs@[i as int]));
        }
        let lo = at - len - 1;
        let mut j: usize = 0;
        while j < len
            invariant
                j <= len,
                len == b@.len(),
                lo + len + 1 == at,
                at <= start,
                start <= p0.len(),
                p1.len() == p0.len(),
                page@.len() == p0.len(),
                forall|x: int| 0 <= x < j ==> #[trigger] page@[lo + x] == b@[x],
                forall|x: int|
                    0 <= x < p0.len() && !(lo <= x < lo + j) ==> #[trigger] page@[x] == p1[x],
            decreases len - j,
        {
            let ghost p2 = page@;
            page[lo + j] = b[j];
            assert forall|x: int| 0 <= x < j + 1 implies #[trigger] page@[lo + x] == b@[x] by {
                if x < j {
                    assert(p2[lo + x] == b@[x]);
                }
            }
            j += 1;
        }
        let ghost p3 = page@;
        page[lo + len] = 0;
        proof {
            assert(string_at(page@, lo as int, b@)) by {
                assert forall|x: int| 0 <= x < b@.len() implies #[trigger] page@[lo + x] == b@[x] by {
                    assert(p3[lo + x] == b@[x]);
                }
            }
            assert forall|x: int| at <= x < start implies #[trigger] page@[x] == p1[x] by {
                assert(p3[x] == p1[x]);
            }
            lemma_strings_kept(p1, page@, strs@, i as int, start as int);
            assert forall|k: int| 0 <= k < i + 1 implies string_at(
                page@,
                pushed(strs@, k + 1, start as int),
                bytes_of(#[trigger] strs@[k]),
            ) by {
                if k < i {
                    assert(string_at(
                        page@,
                        pushed(strs@, k + 1, start as int),
                        bytes_of(strs@[k]),
                    ));
                }
            }
            assert forall|x: int| 0 <= x < p0.len() && !(lo <= x < start) implies #[trigger] page@[x]
                == p0[x] by {
                assert(p3[x] == p1[x]);
                assert(p1[x] == p0[x]);
            }
        }
        at = lo;
        r.push(at);
        i += 1;
    }
    r
}

/// The number in eight bytes depends on those only.
proof fn lemma_le_same(a: Seq<u8>, b: Seq<u8>, i: int, n: int)
    requires
        forall|x: int| i <= x < i + n ==> #[trigger] a[x] == b[x],
    ensures
        le(a, i, n) == le(b, i, n),
    decreases n,
{
    if n > 0 {
        assert(a[i] == b[i]);
        lemma_le_same(a, b, i + 1, n - 1);
    }
}

/// Numbers that `n` bytes can hold.
pub open spec fn pow256(n: int) -> int
    decreases n,
{
    if n <= 0 {
        1
    } else {
        256 * pow256(n - 1)
    }
}

/// Write a number into `n` bytes, lowest first.
fn write_le(page: &mut Vec<u8>, at: usize, w: u64, n: usize)
    requires
        at + n <= old(page)@.len() <= usize::MAX,
        w < pow256(n as int),
    ensures
        final(page)@.len() == old(page)@.len(),
        le(final(page)@, at as int, n as int) == w,
        forall|x: int|
            0 <= x < old(page)@.len() && !(at <= x < at + n) ==> #[trigger] final(page)@[x] == old(page)@[x],
    decreases n,
{
    if n > 0 {
        page[at] = (w % 256) as u8;
        write_le(page, at + 1, w / 256, n - 1);
    }
}

/// Write a word, lowest byte first.
fn write_word(page: &mut Vec<u8>, at: usize, w: u64)
    requires
        at + 8 <= old(page)@.len() <= usize::MAX,
    ensures
        final(page)@.len() == old(page)@.len(),
        le(final(page)@, at as int, 8) == w,
        forall|x: int|
            0 <= x < old(page)@.len() && !(at <= x < at + 8) ==> #[trigger] final(page)@[x] == old(page)@[x],
{
    assert(pow256(8) == 0x1_0000_0000_0000_0000) by {
        reveal_with_fuel(pow256, 9);
    }
    write_le(page, at, w, 8);
}

/// The words of the table.
pub open spec fn table(
    argv: Seq<String>,
    envp: Seq<String>,
    auxv: Seq<AuxvEntry>,
    page_va: int,
) -> Seq<int> {
    let low = pushed(argv, argv.len() as int, 4080);
    seq![argv.len() as int] + Seq::new(argv.len(), |i: int| page_va + pushed(argv, i + 1, 4080))
        + seq![0int] + Seq::new(envp.len(), |i: int| page_va + pushed(envp, i + 1, low)) + seq![0int]
        + Seq::new(
        auxv.len() * 2,
        |i: int|
            if i % 2 == 0 {
                auxv[i / 2].atype as int
            } else if auxv[i / 2].atype == AT_RANDOM {
                page_va + 4080
            } else {
                auxv[i / 2].value as int
            },
    )
}

/// The words are in the page from `at` on.
pub open spec fn words_at(page: Seq<u8>, at: int, words: Seq<int>, n: int) -> bool {
    forall|i: int| 0 <= i < n ==> le(page, at + 8 * i, 8) == #[trigger] words[i]
}

/// Lowest byte that the strings take.
pub open spec fn strings_low(argv: Seq<String>, envp: Seq<String>) -> int {
    pushed(envp, envp.len() as int, pushed(argv, argv.len() as int, 4080))
}

/// `x` rounded down to a multiple of sixteen.
pub open spec fn down16(x: int) -> int {
    x / 16 * 16
}

/// Where the table starts: below the strings, on a boundary of sixteen bytes.
pub open spec fn table_start(argv: Seq<String>, envp: Seq<String>, bytes: int) -> int {
    down16(down16(strings_low(argv, envp)) - bytes)
}

/// Every byte outside the table of `bytes` bytes at `t` and the strings, which end at the last
/// sixteen bytes, is zero.
pub open spec fn rest_zero(
    page: Seq<u8>,
    argv: Seq<String>,
    envp: Seq<String>,
    t: int,
    bytes: int,
) -> bool {
    forall|x: int|
        0 <= x < 4096 && !(t <= x < t + bytes) && !(strings_low(argv, envp) <= x < 4080)
            ==> #[trigger] page[x] == 0
}

/// Write the words of the table.
fn write_words(page: &mut Vec<u8>, at: usize, words: &Vec<u64>)
    requires
        at + 8 * words@.len() <= old(page)@.len() <= usize::MAX,
    ensures
        final(page)@.len() == old(page)@.len(),
        forall|i: int| 0 <= i < words@.len() ==> le(final(page)@, at + 8 * i, 8) == #[trigger] words@[i],
        forall|x: int|
            0 <= x < old(page)@.len() && !(at <= x < at + 8 * words@.len())
                ==> #[trigger] final(page)@[x] == old(page)@[x],
{
    let ghost p0 = page@;
    let mut i: usize = 0;
    while i < words.len()
        invariant
            i <= words@.len(),
            p0 == old(page)@,
            at + 8 * words@.len() <= p0.len() <= usize::MAX,
            page@.len() == p0.len(),
            forall|j: int| 0 <= j < i ==> le(page@, at + 8 * j, 8) == #[trigger] words@[j],
            forall|x: int|
                0 <= x < p0.len() && !(at <= x < at + 8 * i) ==> #[trigger] page@[x] == p0[x],
        decreases words@.len() - i,
    {
        let ghost p1 = page@;
        write_word(page, at + 8 * i, words[i]);
        proof {
            assert forall|j: int| 0 <= j < i + 1 implies le(page@, at + 8 * j, 8)
                == #[trigger] words@[j] by {
                if j < i {
                    lemma_le_same(p1, page@, at + 8 * j, 8);
                }
            }
        }
        i += 1;
    }
}

/// The words of the table as numbers.
fn table_words(
    argv_at: &Vec<usize>,
    envp_at: &Vec<usize>,
    auxv: &Vec<AuxvEntry>,
    page_va: u64,
    Ghost(argv): Ghost<Seq<String>>,
    Ghost(envp): Ghost<Seq<String>>,
) -> (r: Vec<u64>)
    requires
        page_va + 4096 <= u64::MAX,
        argv_at@.len() == argv.len(),
        envp_at@.len() == envp.len(),
        forall|i: int|
            0 <= i < argv_at@.len() ==> #[trigger] argv_at@[i] == pushed(argv, i + 1, 4080)
                && argv_at@[i] <= 4080,
        forall|i: int|
            0 <= i < envp_at@.len() ==> #[trigger] envp_at@[i] == pushed(
                envp,
                i + 1,
                pushed(argv, argv.len() as int, 4080),
            ) && envp_at@[i] <= 4080,
    ensures
        r@.len() == table(argv, envp, auxv@, page_va as int).len(),
        forall|i: int|
            0 <= i < r@.len() ==> #[trigger] r@[i] == table(argv, envp, auxv@, page_va as int)[i],
{
    let ghost t = table(argv, envp, auxv@, page_va as int);
    let ghost a = argv.len() as int;
    let ghost e = envp.len() as int;
    let mut r: Vec<u64> = Vec::new();
    r.push(argv_at.len() as u64);
    let mut i: usize = 0;
    while i < argv_at.len()
        invariant
            i <= a,
            a == argv.len(),
            a == argv_at@.len(),
            t == table(argv, envp, auxv@, page_va as int),
            page_va + 4096 <= u64::MAX,
            forall|j: int|
                0 <= j < argv_at@.len() ==> #[trigger] argv_at@[j] == pushed(argv, j + 1, 4080)
                    && argv_at@[j] <= 4080,
            r@.len() == 1 + i,
            forall|j: int| 0 <= j < r@.len() ==> #[trigger] r@[j] == t[j],
        decreases a - i,
    {
        r.push(page_va + argv_at[i] as u64);
        i += 1;
    }
    r.push(0);
    let mut i: usize = 0;
    while i < envp_at.len()
        invariant
            i <= e,
            e == envp.len(),
            e == envp_at@.len(),
            a == argv.len(),
            t == table(argv, envp, auxv@, page_va as int),
            page_va + 4096 <= u64::MAX,
            forall|j: int|
                0 <= j < envp_at@.len() ==> #[trigger] envp_at@[j] == pushed(
                    envp,
                    j + 1,
                    pushed(argv, argv.len() as int, 4080),
                ) && envp_at@[j] <= 4080,
            r@.len() == 2 + a + i,
            forall|j: int| 0 <= j < r@.len() ==> #[trigger] r@[j] == t[j],
        decreases e - i,
    {
        r.push(page_va + envp_at[i] as u64);
        i += 1;
    }
    r.push(0);
    let mut i: usize = 0;
    while i < auxv.len()
        invariant
            i <= auxv@.len(),
            e == envp.len(),
            a == argv.len(),
            t == table(argv, envp, auxv@, page_va as int),
            page_va + 4096 <= u64::MAX,
            r@.len() == 3 + a + e + 2 * i,
            forall|j: int| 0 <= j < r@.len() ==> #[trigger] r@[j] == t[j],
        decreases auxv@.len() - i,
    {
        let x = auxv[i];
        r.push(x.atype);
        if x.atype == AT_RANDOM {
            r.push(page_va + 4080);
        } else {
            r.push(x.value);
        }
        i += 1;
    }
    r
}

/// The number in eight bytes: every byte counts two hundred and fifty-six times as much as the one
/// before.
pub proof fn law_lowest_byte_is_first(b: Seq<u8>, at: int)
    ensures
        le(b, at, 8) == b[at] + 0x100 * b[at + 1] + 0x1_0000 * b[at + 2] + 0x100_0000 * b[at + 3]
            + 0x1_0000_0000 * b[at + 4] + 0x100_0000_0000 * b[at + 5] + 0x1_0000_0000_0000 * b[at + 6]
            + 0x100_0000_0000_0000 * b[at + 7],
{
    reveal_with_fuel(le, 9);
}

/// A program finds at its stack pointer the number of its arguments; then the address of each argument,
/// and there the bytes of that argument and a zero; then a zero; then the environment in the same way,
/// and a zero; and then each entry of the auxiliary vector, of which number twenty-five is the address
/// of the last sixteen bytes of the page.
pub proof fn law_program_finds_its_arguments(
    page: Seq<u8>,
    argv: Seq<String>,
    envp: Seq<String>,
    auxv: Seq<AuxvEntry>,
    page_va: int,
    t: int,
    i: int,
)
    requires
        page.len() == 4096,
        0 <= strings_low(argv, envp),
        strings_at(page, argv, argv.len() as int, 4080),
        strings_at(page, envp, envp.len() as int, pushed(argv, argv.len() as int, 4080)),
        words_at(
            page,
            t,
            table(argv, envp, auxv, page_va),
            slots(argv.len() as int, envp.len() as int, auxv.len() as int),
        ),
    ensures
        le(page, t, 8) == argv.len(),
        0 <= i < argv.len() ==> ({
                let at = le(page, t + 8 * (1 + i), 8) - page_va;
                &&& 0 <= at && at + bytes_of(argv[i]).len() < 4080
                &&& page.subrange(at, at + bytes_of(argv[i]).len()) == bytes_of(argv[i])
                &&& page[at + bytes_of(argv[i]).len()] == 0
            }),
        le(page, t + 8 * (1 + argv.len() as int), 8) == 0,
        0 <= i < envp.len() ==> ({
                let at = le(page, t + 8 * (2 + argv.len() as int + i), 8) - page_va;
                &&& 0 <= at && at + bytes_of(envp[i]).len() < 4080
                &&& page.subrange(at, at + bytes_of(envp[i]).len()) == bytes_of(envp[i])
                &&& page[at + bytes_of(envp[i]).len()] == 0
            }),
        le(page, t + 8 * (2 + argv.len() as int + envp.len() as int), 8) == 0,
        0 <= i < auxv.len()
            ==> le(page, t + 8 * (3 + argv.len() as int + envp.len() as int + 2 * i), 8) == auxv[i].atype,
        0 <= i < auxv.len()
            ==> le(page, t + 8 * (4 + argv.len() as int + envp.len() as int + 2 * i), 8) == (if auxv[i].atype == 25 { page_va + 4080 } else { auxv[i].value as int }),
{
    let ws = table(argv, envp, auxv, page_va);
    let a = argv.len() as int;
    let e = envp.len() as int;
    let low = pushed(argv, a, 4080);
    let n = slots(a, e, auxv.len() as int);
    assert(ws.len() == n);
    assert(ws[0] == a);
    assert(le(page, t + 8 * 0, 8) == ws[0]);
    assert(ws[1 + a] == 0);
    assert(ws[2 + a + e] == 0);
    assert(le(page, t + 8 * (1 + a), 8) == 0);
    assert(le(page, t + 8 * (2 + a + e), 8) == 0);
    assert(le(page, t, 8) == a);
    lemma_pushed(argv, a, a, 4080);
    lemma_pushed(envp, e, e, low);
    if 0 <= i < a {
        assert(ws[1 + i] == page_va + pushed(argv, i + 1, 4080));
        lemma_pushed(argv, i + 1, a, 4080);
        lemma_pushed(argv, 0, i, 4080);
        assert(string_at(page, pushed(argv, i + 1, 4080), bytes_of(argv[i])));
        lemma_text_at(page, pushed(argv, i + 1, 4080), bytes_of(argv[i]));
        assert(le(page, t + 8 * (1 + i), 8) == ws[1 + i]);
    }
    if 0 <= i < e {
        assert(ws[2 + a + i] == page_va + pushed(envp, i + 1, low));
        lemma_pushed(envp, i + 1, e, low);
        lemma_pushed(envp, 0, i, low);
        assert(string_at(page, pushed(envp, i + 1, low), bytes_of(envp[i])));
        lemma_text_at(page, pushed(envp, i + 1, low), bytes_of(envp[i]));
        assert(le(page, t + 8 * (2 + a + i), 8) == ws[2 + a + i]);
    }
    if 0 <= i < auxv.len() {
        let x = 3 + a + e + 2 * i;
        assert((2 * i) % 2 == 0 && (2 * i + 1) % 2 == 1 && (2 * i) / 2 == i && (2 * i + 1) / 2 == i);
        assert(ws[x] == auxv[i].atype);
        assert(ws[x + 1] == if auxv[i].atype == AT_RANDOM {
            page_va + 4080
        } else {
            auxv[i].value as int
        });
        assert(le(page, t + 8 * x, 8) == ws[x]);
        assert(le(page, t + 8 * (x + 1), 8) == ws[x + 1]);
    }
}

/// The bytes of a string, taken together.
proof fn lemma_text_at(page: Seq<u8>, at: int, b: Seq<u8>)
    requires
        string_at(page, at, b),
        0 <= at,
        at + b.len() < page.len(),
    ensures
        page.subrange(at, at + b.len()) == b,
        page[at + b.len()] == 0,
{
    assert forall|j: int| 0 <= j < b.len() implies page.subrange(at, at + b.len())[j]
        == #[trigger] b[j] by {
        assert(page[at + j] == b[j]);
    }
    assert(page.subrange(at, at + b.len()) =~= b);
}

/// The `i`-th word from `w` on is the address of the `i`-th string, with a zero behind it.
pub open spec fn argument_found(page: Seq<u8>, strs: Seq<String>, i: int, page_va: int, w: int) -> bool {
    0 <= i < strs.len() ==> {
        let at = le(page, w + 8 * i, 8) - page_va;
        &&& 0 <= at && at + bytes_of(strs[i]).len() < 4080
        &&& page.subrange(at, at + bytes_of(strs[i]).len()) == bytes_of(strs[i])
        &&& page[at + bytes_of(strs[i]).len()] == 0
    }
}

/// What a program finds from `t` on: the number of its arguments, the arguments, a zero, the
/// environment and a zero.
pub open spec fn arguments_found(
    page: Seq<u8>,
    argv: Seq<String>,
    envp: Seq<String>,
    auxv: Seq<AuxvEntry>,
    page_va: int,
    t: int,
) -> bool {
    &&& le(page, t, 8) == argv.len()
    &&& forall|i: int| #[trigger] argument_found(page, argv, i, page_va, t + 8)
    &&& le(page, t + 8 * (1 + argv.len() as int), 8) == 0
    &&& forall|i: int| #[trigger]
        argument_found(page, envp, i, page_va, t + 8 * (2 + argv.len() as int))
    &&& le(page, t + 8 * (2 + argv.len() as int + envp.len() as int), 8) == 0
}

/// See `law_program_finds_its_arguments`.
pub proof fn lemma_arguments_found(
    page: Seq<u8>,
    argv: Seq<String>,
    envp: Seq<String>,
    auxv: Seq<AuxvEntry>,
    page_va: int,
    t: int,
)
    requires
        page.len() == 4096,
        0 <= strings_low(argv, envp),
        strings_at(page, argv, argv.len() as int, 4080),
        strings_at(page, envp, envp.len() as int, pushed(argv, argv.len() as int, 4080)),
        words_at(
            page,
            t,
            table(argv, envp, auxv, page_va),
            slots(argv.len() as int, envp.len() as int, auxv.len() as int),
        ),
    ensures
        arguments_found(page, argv, envp, auxv, page_va, t),
{
    law_program_finds_its_arguments(page, argv, envp, auxv, page_va, t, 0);
    assert forall|i: int| #[trigger] argument_found(page, argv, i, page_va, t + 8) by {
        law_program_finds_its_arguments(page, argv, envp, auxv, page_va, t, i);
    }
    let u = t + 8 * (2 + argv.len() as int);
    assert forall|i: int| #[trigger] argument_found(page, envp, i, page_va, u) by {
        law_program_finds_its_arguments(page, argv, envp, auxv, page_va, t, i);
    }
}

/// Fill the first page of a stack, which lies at `page_va`: sixteen random bytes, all zero,
/// at its end; the strings below; and the table below these.  Returns the page and the stack
/// pointer.  The error is that the table does not fit.
pub fn fill_stack_page(layout: &StackLayout, argv: &Vec<String>, envp: &Vec<String>, page_va: u64) -> (r:
    Result<(Vec<u8>, u64), Errno>)
    requires
        page_va + 4096 <= u64::MAX,
        page_va as int % 4096 == 0,
        0 <= strings_low(argv@, envp@),
        layout.n_slots == slots(
            argv@.len() as int,
            envp@.len() as int,
            layout.auxv@.len() as int,
        ),
        layout.table_bytes == layout.n_slots * 8,
    ensures
        r is Err <==> down16(strings_low(argv@, envp@)) < layout.table_bytes,
        r matches Err(e) ==> e == Errno::Enomem,
        r matches Ok((page, sp)) ==> {
            let t = table_start(argv@, envp@, layout.table_bytes as int);
            let low = pushed(argv@, argv@.len() as int, 4080);
            &&& page@.len() == 4096
            &&& sp == page_va + t
            &&& sp % 16 == 0
            &&& 0 <= t
            &&& t + layout.table_bytes <= strings_low(argv@, envp@)
            &&& rest_zero(page@, argv@, envp@, t, layout.table_bytes as int)
            &&& strings_at(page@, argv@, argv@.len() as int, 4080)
            &&& strings_at(page@, envp@, envp@.len() as int, low)
            &&& words_at(
                page@,
                t,
                table(argv@, envp@, layout.auxv@, page_va as int),
                layout.n_slots as int,
            )
        },
        r matches Ok((page, sp))
            ==> arguments_found(page@, argv@, envp@, layout.auxv@, page_va as int, sp - page_va),
{
    let r = fill_page(layout, argv, envp, page_va);
    proof {
        if r is Ok {
            lemma_arguments_found(
                (r->Ok_0).0@,
                argv@,
                envp@,
                layout.auxv@,
                page_va as int,
                (r->Ok_0).1 - page_va,
            );
        }
    }
    r
}

/// Fill the page.
fn fill_page(layout: &StackLayout, argv: &Vec<String>, envp: &Vec<String>, page_va: u64) -> (r:
    Result<(Vec<u8>, u64), Errno>)
    requires
        page_va + 4096 <= u64::MAX,
        page_va as int % 4096 == 0,
        0 <= strings_low(argv@, envp@),
        layout.n_slots == slots(
            argv@.len() as int,
            envp@.len() as int,
            layout.auxv@.len() as int,
        ),
        layout.table_bytes == layout.n_slots * 8,
    ensures
        r is Err <==> down16(strings_low(argv@, envp@)) < layout.table_bytes,
        r matches Err(e) ==> e == Errno::Enomem,
        r matches Ok((page, sp)) ==> {
            let t = table_start(argv@, envp@, layout.table_bytes as int);
            let low = pushed(argv@, argv@.len() as int, 4080);
            &&& page@.len() == 4096
            &&& sp == page_va + t
            &&& sp % 16 == 0
            &&& 0 <= t
            &&& t + layout.table_bytes <= strings_low(argv@, envp@)
            &&& rest_zero(page@, argv@, envp@, t, layout.table_bytes as int)
            &&& strings_at(page@, argv@, argv@.len() as int, 4080)
            &&& strings_at(page@, envp@, envp@.len() as int, low)
            &&& words_at(
                page@,
                t,
                table(argv@, envp@, layout.auxv@, page_va as int),
                layout.n_slots as int,
            )
        },
{
    let mut page: Vec<u8> = Vec::new();
    while page.len() < 4096
        invariant
            page@.len() <= 4096,
            forall|x: int| 0 <= x < page@.len() ==> #[trigger] page@[x] == 0,
        decreases 4096 - page@.len(),
    {
        page.push(0);
    }
    let ghost a = argv@.len() as int;
    let ghost e = envp@.len() as int;
    let ghost low = pushed(argv@, a, 4080);
    proof {
        lemma_pushed(argv@, 0, a, 4080);
        lemma_pushed(envp@, 0, e, low);
    }
    let argv_at = push_strings(&mut page, argv, 4080);
    let ghost p1 = page@;
    let mid = if argv_at.len() == 0 {
        4080
    } else {
        argv_at[argv_at.len() - 1]
    };
    assert(mid == low);
    let envp_at = push_strings(&mut page, envp, mid);
    let ghost p2 = page@;
    let bottom = if envp_at.len() == 0 {
        mid
    } else {
        envp_at[envp_at.len() - 1]
    };
    proof {
        assert(bottom == strings_low(argv@, envp@));
        lemma_strings_kept(p1, p2, argv@, a, 4080);
        assert forall|i: int| 0 <= i < argv_at@.len() implies #[trigger] argv_at@[i] == pushed(
            argv@,
            i + 1,
            4080,
        ) && argv_at@[i] <= 4080 by {
            lemma_pushed(argv@, 0, i + 1, 4080);
        }
        assert forall|i: int| 0 <= i < envp_at@.len() implies #[trigger] envp_at@[i] == pushed(
            envp@,
            i + 1,
            low,
        ) && envp_at@[i] <= 4080 by {
            lemma_pushed(envp@, 0, i + 1, low);
        }
    }
    let words = table_words(&argv_at, &envp_at, &layout.auxv, page_va, Ghost(argv@), Ghost(envp@));
    let prev = bottom / 16 * 16;
    if prev < layout.table_bytes {
        return Err(Errno::Enomem);
    }
    let t = (prev - layout.table_bytes) / 16 * 16;
    assert(words@.len() == layout.n_slots);
    write_words(&mut page, t, &words);
    proof {
        let p3 = page@;
        lemma_pushed(argv@, 0, a, 4080);
        lemma_strings_kept(p2, p3, argv@, a, 4080);
        lemma_strings_kept(p2, p3, envp@, e, low);
        assert forall|x: int|
            0 <= x < 4096 && !(t <= x < t + layout.table_bytes) && !(strings_low(argv@, envp@) <= x
                < 4080) implies #[trigger] page@[x] == 0 by {
            assert(p3[x] == p2[x]);
            assert(p2[x] == p1[x]);
        }
        let ws = table(argv@, envp@, layout.auxv@, page_va as int);
        assert forall|i: int| 0 <= i < layout.n_slots implies le(p3, t + 8 * i, 8)
            == #[trigger] ws[i] by {
            assert(words@[i] == ws[i]);
        }
        assert(t == table_start(argv@, envp@, layout.table_bytes as int));
        assert(words_at(p3, t as int, ws, layout.n_slots as int));
        assert((page_va + t) as int % 16 == 0);
    }
    Ok((page, page_va + t as u64))
}

/// The bytes below which `n` strings are pushed, where they fit.
fn push_room(strs: &Vec<String>, start: usize) -> (r: Option<usize>)
    ensures
        match r {
            Some(low) => low == pushed(strs@, strs@.len() as int, start as int),
            None => pushed(strs@, strs@.len() as int, start as int) < 0,
        },
{
    let mut at: usize = start;
    let mut i: usize = 0;
    while i < strs.len()
        invariant
            i <= strs@.len(),
            at == pushed(strs@, i as int, start as int),
        decreases strs@.len() - i,
    {
        let len = strs[i].as_str().as_bytes().len();
        if at == 0 || len > at - 1 {
            proof {
                lemma_pushed(strs@, i + 1, strs@.len() as int, start as int);
            }
            return None;
        }
        at = at - len - 1;
        i += 1;
    }
    Some(at)
}

/// Whether the strings fit into the first page of a stack.
pub fn strings_fit(argv: &Vec<String>, envp: &Vec<String>) -> (r: bool)
    ensures
        r ==> 0 <= strings_low(argv@, envp@),
        !r ==> strings_low(argv@, envp@) < 0,
{
    match push_room(argv, 4080) {
        None => {
            proof {
                lemma_pushed(
                    envp@,
                    0,
                    envp@.len() as int,
                    pushed(argv@, argv@.len() as int, 4080),
                );
            }
            false
        },
        Some(low) => match push_room(envp, low) {
            None => false,
            Some(_) => true,
        },
    }
}

/// The table of pointers starts on a boundary of sixteen bytes and ends below the strings.
pub proof fn law_table_is_below_strings(argv: Seq<String>, envp: Seq<String>, bytes: int)
    requires
        0 <= bytes,
    ensures
        table_start(argv, envp, bytes) % 16 == 0,
        table_start(argv, envp, bytes) + bytes <= strings_low(argv, envp),
        strings_low(argv, envp) - 32 < table_start(argv, envp, bytes) + bytes,
{
}

} // verus!
