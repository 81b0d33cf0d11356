use vstd::prelude::*;

verus! {

/// Length of a heap file name: `SS-LLLLLLLLLLLLLLLL-Z-G-CCCCCCCCCCCCCCCC`.
pub const NAME_LEN: usize = 40;

/// The ASCII code of `-`.
pub const DASH: u8 = 45;

pub open spec fn pow16(n: nat) -> nat
    decreases n,
{
    if n == 0 {
        1
    } else {
        16 * pow16((n - 1) as nat)
    }
}

/// The lowercase hex digit of a value below 16.
pub open spec fn hex_digit(v: nat) -> u8 {
    if v < 10 {
        (48 + v) as u8
    } else {
        (87 + v) as u8
    }
}

pub open spec fn is_hex(c: u8) -> bool {
    (48 <= c <= 57) || (97 <= c <= 102)
}

/// The value of a lowercase hex digit.
pub open spec fn hex_val(c: u8) -> nat {
    if 48 <= c <= 57 {
        (c - 48) as nat
    } else {
        (c - 87) as nat
    }
}

/// The last `n` hex digits of `x`, most significant first.
pub open spec fn hex_fixed(x: nat, n: nat) -> Seq<u8>
    decreases n,
{
    if n == 0 {
        seq![]
    } else {
        hex_fixed(x / 16, (n - 1) as nat).push(hex_digit(x % 16))
    }
}

/// The value of a string of hex digits, most significant first.
pub open spec fn hex_value(s: Seq<u8>) -> nat
    decreases s.len(),
{
    if s.len() == 0 {
        0
    } else {
        hex_value(s.drop_last()) * 16 + hex_val(s.last())
    }
}

proof fn lemma_hex_fixed(x: nat, n: nat)
    requires
        x < pow16(n),
    ensures
        hex_fixed(x, n).len() == n,
        forall|i: int| 0 <= i < n ==> is_hex(#[trigger] hex_fixed(x, n)[i]),
        hex_value(hex_fixed(x, n)) == x,
    decreases n,
{
    if n > 0 {
        let p = pow16((n - 1) as nat);
        assert(x / 16 < p) by (nonlinear_arith)
            requires
                x < 16 * p,
        ;
        lemma_hex_fixed(x / 16, (n - 1) as nat);
        let s = hex_fixed(x, n);
        assert(s.drop_last() =~= hex_fixed(x / 16, (n - 1) as nat));
    }
}

proof fn lemma_hex_value_bound(s: Seq<u8>)
    requires
        forall|i: int| 0 <= i < s.len() ==> is_hex(#[trigger] s[i]),
    ensures
        hex_value(s) < pow16(s.len()),
    decreases s.len(),
{
    if s.len() > 0 {
        let t = s.drop_last();
        assert forall|i: int| 0 <= i < t.len() implies is_hex(#[trigger] t[i]) by {
            assert(t[i] == s[i]);
        }
        lemma_hex_value_bound(t);
        let a = hex_value(t);
        let p = pow16(t.len());
        let d = hex_val(s.last());
        assert(a * 16 + d < 16 * p) by (nonlinear_arith)
            requires
                a < p,
                d < 16,
        ;
    }
}

/// The identity of a heap file, as its name encodes it.
#[derive(Debug, Clone, Copy, PartialEq, Eq, Structural)]
pub struct HeapFileName {
    pub shard: u8,
    /// The disk location of the file's first record.
    pub base_lsn: u64,
    /// One hex digit.
    pub size_class: u8,
    /// How often the records were rewritten by maintenance; one hex digit.
    pub generation: u8,
    /// The number of records originally written to the file.
    pub capacity: u64,
}

impl HeapFileName {
    /// The fields fit the digits that the name gives them.
    pub open spec fn wf(&self) -> bool {
        self.size_class < 16 && self.generation < 16
    }
}

/// The name of a heap file:
/// shard (2 hex digits), base location (16), size class (1), generation (1),
/// capacity (16), separated by dashes.
pub open spec fn name_bytes(n: HeapFileName) -> Seq<u8> {
    hex_fixed(n.shard as nat, 2) + seq![DASH] + hex_fixed(n.base_lsn as nat, 16) + seq![DASH]
        + hex_fixed(n.size_class as nat, 1) + seq![DASH] + hex_fixed(n.generation as nat, 1)
        + seq![DASH] + hex_fixed(n.capacity as nat, 16)
}

pub open spec fn is_dash_position(i: int) -> bool {
    i == 2 || i == 19 || i == 21 || i == 23
}

/// Whether `s` has the shape of a heap file name: dashes where they belong and
/// lowercase hex digits everywhere else.
#[verifier::opaque]
pub open spec fn is_heap_name(s: Seq<u8>) -> bool {
    &&& s.len() == NAME_LEN
    &&& forall|i: int|
        0 <= i < NAME_LEN ==> if is_dash_position(i) {
            s[i] == DASH
        } else {
            is_hex(#[trigger] s[i])
        }
}

/// The fields that a name of the right shape encodes.
#[verifier::opaque]
pub open spec fn parsed_name(s: Seq<u8>) -> HeapFileName {
    HeapFileName {
        shard: hex_value(s.subrange(0, 2)) as u8,
        base_lsn: hex_value(s.subrange(3, 19)) as u64,
        size_class: hex_value(s.subrange(20, 21)) as u8,
        generation: hex_value(s.subrange(22, 23)) as u8,
        capacity: hex_value(s.subrange(24, 40)) as u64,
    }
}

/// The suffix that marks a file still being written.
pub open spec fn temp_suffix() -> Seq<u8> {
    seq![DASH, 116u8, 109u8, 112u8]
}

/// Whether `s` ends with `-tmp`.
pub open spec fn is_temp_name(s: Seq<u8>) -> bool {
    s.len() >= 4 && s.subrange(s.len() - 4, s.len() as int) == temp_suffix()
}

/// Appends the last `n` hex digits of `x`.
fn push_hex(buf: &mut Vec<u8>, x: u64, n: usize)
    ensures
        final(buf)@ == old(buf)@ + hex_fixed(x as nat, n as nat),
    decreases n,
{
    if n == 0 {
        assert(old(buf)@ + hex_fixed(x as nat, 0) =~= old(buf)@);
        return;
    }
    push_hex(buf, x / 16, n - 1);
    let d: u8 = (x % 16) as u8;
    if d < 10 {
        buf.push(48 + d);
    } else {
        buf.push(87 + d);
    }
    assert(final(buf)@ =~= old(buf)@ + hex_fixed(x as nat, n as nat));
}

/// The value of the hex digits `b[start..end]`.
fn parse_hex(b: &[u8], start: usize, end: usize) -> (r: u64)
    requires
        start <= end <= b@.len(),
        end - start <= 16,
        forall|i: int| start <= i < end ==> is_hex(#[trigger] b@[i]),
    ensures
        r == hex_value(b@.subrange(start as int, end as int)),
{
    let mut acc: u64 = 0;
    let mut i: usize = start;
    assert(b@.subrange(start as int, start as int) =~= Seq::<u8>::empty());
    while i < end
        invariant
            start <= i <= end <= b@.len(),
            end - start <= 16,
            forall|j: int| start <= j < end ==> is_hex(#[trigger] b@[j]),
            acc == hex_value(b@.subrange(start as int, i as int)),
        decreases end - i,
    {
        proof {
            let s = b@.subrange(start as int, i as int + 1);
            assert(s.drop_last() =~= b@.subrange(start as int, i as int));
            assert forall|j: int| 0 <= j < s.len() implies is_hex(#[trigger] s[j]) by {
                assert(s[j] == b@[start + j]);
            }
            lemma_hex_value_bound(s);
            lemma_pow16_le((i + 1 - start) as nat, 16);
            lemma_pow16_values();
        }
        let c = b[i];
        let d: u64 = if c <= 57 {
            (c - 48) as u64
        } else {
            (c - 87) as u64
        };
        acc = acc * 16 + d;
        i = i + 1;
    }
    acc
}

proof fn lemma_pow16_values()
    ensures
        pow16(1) == 16,
        pow16(2) == 256,
        pow16(16) == 0x1_0000_0000_0000_0000,
{
    reveal_with_fuel(pow16, 17);
}

proof fn lemma_pow16_le(a: nat, b: nat)
    requires
        a <= b,
    ensures
        pow16(a) <= pow16(b),
    decreases b,
{
    if a < b {
        lemma_pow16_le(a, (b - 1) as nat);
    }
}

impl HeapFileName {
    /// The file's name.
    pub fn to_name(&self) -> (r: Vec<u8>)
        requires
            self.wf(),
        ensures
            r@ == name_bytes(*self),
    {
        let mut buf: Vec<u8> = Vec::new();
        push_hex(&mut buf, self.shard as u64, 2);
        buf.push(DASH);
        push_hex(&mut buf, self.base_lsn, 16);
        buf.push(DASH);
        push_hex(&mut buf, self.size_class as u64, 1);
        buf.push(DASH);
        push_hex(&mut buf, self.generation as u64, 1);
        buf.push(DASH);
        push_hex(&mut buf, self.capacity, 16);
        assert(buf@ =~= name_bytes(*self));
        buf
    }

    /// The name under which the file is written before it is published.
    pub fn to_temp_name(&self) -> (r: Vec<u8>)
        requires
            self.wf(),
        ensures
            r@ == name_bytes(*self) + temp_suffix(),
            is_temp_name(r@),
    {
        let mut buf = self.to_name();
        buf.push(DASH);
        buf.push(116);
        buf.push(109);
        buf.push(112);
        assert(buf@ =~= name_bytes(*self) + temp_suffix());
        assert(buf@.subrange(buf@.len() - 4, buf@.len() as int) =~= temp_suffix());
        buf
    }

    /// Parses a heap file name; `None` where `s` does not have its shape.
    pub fn parse(s: &[u8]) -> (r: Option<HeapFileName>)
        ensures
            r == (if is_heap_name(s@) {
                Some(parsed_name(s@))
            } else {
                None::<HeapFileName>
            }),
            r is Some ==> r->0.wf(),
    {
        reveal(is_heap_name);
        if s.len() != NAME_LEN {
            return None;
        }
        let mut i: usize = 0;
        while i < NAME_LEN
            invariant
                s@.len() == NAME_LEN,
                i <= NAME_LEN,
                forall|j: int|
                    0 <= j < i ==> if is_dash_position(j) {
                        s@[j] == DASH
                    } else {
                        is_hex(#[trigger] s@[j])
                    },
            decreases NAME_LEN - i,
        {
            let c = s[i];
            if i == 2 || i == 19 || i == 21 || i == 23 {
                if c != DASH {
                    proof {
                        reveal(is_heap_name);
                    }
                    return None;
                }
            } else if !((48 <= c && c <= 57) || (97 <= c && c <= 102)) {
                proof {
                    reveal(is_heap_name);
                }
                return None;
            }
            i = i + 1;
        }
        let ghost g = s@;
        assert forall|j: int| 0 <= j < 2 implies is_hex(#[trigger] g[j]) by {
            assert(!is_dash_position(j));
        }
        let shard = parse_hex(s, 0, 2);
        let base_lsn = parse_hex(s, 3, 19);
        let size_class = parse_hex(s, 20, 21);
        let generation = parse_hex(s, 22, 23);
        let capacity = parse_hex(s, 24, 40);
        proof {
            reveal(parsed_name);
            lemma_hex_value_bound(g.subrange(0, 2));
            lemma_hex_value_bound(g.subrange(20, 21));
            lemma_hex_value_bound(g.subrange(22, 23));
            lemma_pow16_values();
        }
        Some(
            HeapFileName {
                shard: shard as u8,
                base_lsn,
                size_class: size_class as u8,
                generation: generation as u8,
                capacity,
            },
        )
    }
}

/// Parsing the name of a heap file gives back the fields it was made from.
pub proof fn lemma_parse_name(n: HeapFileName)
    requires
        n.wf(),
    ensures
        is_heap_name(name_bytes(n)),
        parsed_name(name_bytes(n)) == n,
{
    reveal(is_heap_name);
    lemma_pow16_values();
    lemma_pow16_le(2, 16);
    let a = hex_fixed(n.shard as nat, 2);
    let b = hex_fixed(n.base_lsn as nat, 16);
    let c = hex_fixed(n.size_class as nat, 1);
    let d = hex_fixed(n.generation as nat, 1);
    let e = hex_fixed(n.capacity as nat, 16);
    lemma_hex_fixed(n.shard as nat, 2);
    lemma_hex_fixed(n.base_lsn as nat, 16);
    lemma_hex_fixed(n.size_class as nat, 1);
    lemma_hex_fixed(n.generation as nat, 1);
    lemma_hex_fixed(n.capacity as nat, 16);
    let s = name_bytes(n);
    assert(s.subrange(0, 2) =~= a);
    assert(s.subrange(3, 19) =~= b);
    assert(s.subrange(20, 21) =~= c);
    assert(s.subrange(22, 23) =~= d);
    assert(s.subrange(24, 40) =~= e);
    assert forall|i: int|
        0 <= i < NAME_LEN implies if is_dash_position(i) {
        s[i] == DASH
    } else {
        is_hex(#[trigger] s[i])
    } by {
        if 0 <= i < 2 {
            assert(s[i] == a[i]);
        } else if 3 <= i < 19 {
            assert(s[i] == b[i - 3]);
        } else if i == 20 {
            assert(s[i] == c[0]);
        } else if i == 22 {
            assert(s[i] == d[0]);
        } else if 24 <= i < 40 {
            assert(s[i] == e[i - 24]);
        }
    }
    reveal(parsed_name);
    assert(parsed_name(s) =~= n);
}

/// Whether `s` ends with `-tmp`, the mark of a file still being written.
pub fn is_temp(s: &[u8]) -> (r: bool)
    ensures
        r == is_temp_name(s@),
{
    let n = s.len();
    if n < 4 {
        return false;
    }
    let r = s[n - 4] == DASH && s[n - 3] == 116 && s[n - 2] == 109 && s[n - 1] == 112;
    assert(r == (s@.subrange(n - 4, n as int) =~= temp_suffix()));
    r
}

} // verus!
