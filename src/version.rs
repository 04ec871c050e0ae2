use vstd::prelude::*;

verus! {

/// A release identifier: major, minor and patch numbers.
#[derive(Clone, Copy, Debug, PartialEq, Eq, Structural)]
pub struct Version {
    pub major: u32,
    pub minor: u32,
    pub patch: u32,
}

/// The ASCII code of `.`, which separates the parts of a version's text.
pub const DOT: u8 = 46;

pub open spec fn is_digit(b: u8) -> bool {
    48 <= b <= 57
}

/// The decimal digits of `n` in ASCII, with no leading zero.
pub open spec fn decimal(n: nat) -> Seq<u8>
    decreases n,
{
    if n < 10 {
        seq![(48 + n) as u8]
    } else {
        decimal(n / 10).push((48 + n % 10) as u8)
    }
}

/// The text of a version: `major.minor.patch`, each part in decimal.
pub open spec fn version_text(v: Version) -> Seq<u8> {
    decimal(v.major as nat) + seq![DOT] + decimal(v.minor as nat) + seq![DOT] + decimal(
        v.patch as nat,
    )
}

/// The number that a run of ASCII digits spells.
spec fn value_of(ds: Seq<u8>) -> nat
    decreases ds.len(),
{
    if ds.len() == 0 {
        0
    } else {
        value_of(ds.drop_last()) * 10 + (ds.last() - 48) as nat
    }
}

/// The decimal text of `n` stands in `s` at `start`, and no digit follows it.
spec fn field_at(s: Seq<u8>, start: int, n: nat) -> bool {
    let d = decimal(n);
    &&& 0 <= start
    &&& start + d.len() <= s.len()
    &&& s.subrange(start, start + d.len()) == d
    &&& (start + d.len() == s.len() || !is_digit(s[start + d.len()]))
}

proof fn lemma_decimal(n: nat)
    ensures
        decimal(n).len() >= 1,
        forall|i: int| 0 <= i < decimal(n).len() ==> is_digit(#[trigger] decimal(n)[i]),
        value_of(decimal(n)) == n,
        decimal(n)[0] == 48 ==> n == 0,
    decreases n,
{
    if n >= 10 {
        lemma_decimal(n / 10);
        let d = decimal(n);
        assert(d.drop_last() =~= decimal(n / 10));
        assert(d[0] == decimal(n / 10)[0]);
        assert(d.last() - 48 == n % 10);
        assert((n / 10) * 10 + n % 10 == n);
    } else {
        assert(decimal(n).drop_last() =~= Seq::<u8>::empty());
        assert(value_of(Seq::<u8>::empty()) == 0);
    }
}

proof fn lemma_value_positive(x: Seq<u8>)
    requires
        x.len() >= 1,
        forall|i: int| 0 <= i < x.len() ==> is_digit(#[trigger] x[i]),
        x[0] != 48,
    ensures
        value_of(x) >= 1,
    decreases x.len(),
{
    if x.len() > 1 {
        let y = x.drop_last();
        assert(y[0] == x[0]);
        assert forall|i: int| 0 <= i < y.len() implies is_digit(#[trigger] y[i]) by {
            assert(y[i] == x[i]);
        }
        lemma_value_positive(y);
    }
}

/// A digit run without a leading zero is the decimal text of its value.
proof fn lemma_canonical(x: Seq<u8>)
    requires
        x.len() >= 1,
        forall|i: int| 0 <= i < x.len() ==> is_digit(#[trigger] x[i]),
        x.len() > 1 ==> x[0] != 48,
    ensures
        decimal(value_of(x)) == x,
    decreases x.len(),
{
    if x.len() == 1 {
        assert(x.drop_last() =~= Seq::<u8>::empty());
        assert(value_of(Seq::<u8>::empty()) == 0);
        assert(value_of(x) == (x[0] - 48) as nat);
        assert(decimal(value_of(x)) =~= x);
    } else {
        let y = x.drop_last();
        assert(y[0] == x[0]);
        assert forall|i: int| 0 <= i < y.len() implies is_digit(#[trigger] y[i]) by {
            assert(y[i] == x[i]);
        }
        lemma_canonical(y);
        lemma_value_positive(y);
        let v = value_of(y);
        let d = (x.last() - 48) as nat;
        assert(d < 10);
        assert((v * 10 + d) / 10 == v && (v * 10 + d) % 10 == d) by (nonlinear_arith)
            requires
                d < 10,
        ;
        assert(decimal(value_of(x)) =~= x);
    }
}

/// A longer run of digits spells at least what its prefix spells.
proof fn lemma_value_prefix(x: Seq<u8>, i: int)
    requires
        0 <= i <= x.len(),
        forall|k: int| 0 <= k < x.len() ==> is_digit(#[trigger] x[k]),
    ensures
        value_of(x.subrange(0, i)) <= value_of(x),
    decreases x.len(),
{
    if i < x.len() {
        let y = x.drop_last();
        assert forall|k: int| 0 <= k < y.len() implies is_digit(#[trigger] y[k]) by {
            assert(y[k] == x[k]);
        }
        lemma_value_prefix(y, i);
        assert(y.subrange(0, i) =~= x.subrange(0, i));
    } else {
        assert(x.subrange(0, i) =~= x);
    }
}

/// At most one number's text stands at a given place.
proof fn lemma_field_unique(s: Seq<u8>, start: int, n: nat, m: nat)
    requires
        field_at(s, start, n),
        field_at(s, start, m),
    ensures
        n == m,
{
    lemma_decimal(n);
    lemma_decimal(m);
    let dn = decimal(n);
    let dm = decimal(m);
    if dn.len() < dm.len() {
        assert(s.subrange(start, start + dm.len())[dn.len() as int] == s[start + dn.len()]);
    } else if dm.len() < dn.len() {
        assert(s.subrange(start, start + dn.len())[dm.len() as int] == s[start + dm.len()]);
    }
}

/// How many digits the decimal text of `n` has.
spec fn width(n: u32) -> int {
    decimal(n as nat).len() as int
}

/// Where the parts of a version's text stand.
proof fn lemma_version_text_layout(v: Version)
    ensures
        field_at(version_text(v), 0, v.major as nat),
        version_text(v)[width(v.major)] == DOT,
        field_at(version_text(v), width(v.major) + 1, v.minor as nat),
        version_text(v)[width(v.major) + 1 + width(v.minor)] == DOT,
        field_at(version_text(v), width(v.major) + width(v.minor) + 2, v.patch as nat),
        version_text(v).len() == width(v.major) + width(v.minor) + width(v.patch) + 2,
{
    let a = decimal(v.major as nat);
    let b = decimal(v.minor as nat);
    let c = decimal(v.patch as nat);
    let (la, lb, lc) = (a.len() as int, b.len() as int, c.len() as int);
    let t = version_text(v);
    assert(t.subrange(0, la) =~= a);
    assert(t.subrange(la + 1, la + 1 + lb) =~= b);
    assert(t.subrange(la + lb + 2, la + lb + 2 + lc) =~= c);
}

/// A version's text is its own: no other version has the same text. With the
/// contracts of `encode` and `decode`, decoding what `encode` wrote gives the
/// version back, zero parts included.
pub proof fn lemma_version_round_trip(v: Version)
    ensures
        forall|w: Version| #[trigger] version_text(w) == version_text(v) ==> w == v,
{
    assert forall|w: Version| #[trigger] version_text(w) == version_text(v) implies w == v by {
        lemma_version_text_layout(v);
        lemma_version_text_layout(w);
        let t = version_text(v);
        lemma_field_unique(t, 0, v.major as nat, w.major as nat);
        lemma_field_unique(t, width(v.major) + 1, v.minor as nat, w.minor as nat);
        lemma_field_unique(t, width(v.major) + width(v.minor) + 2, v.patch as nat, w.patch as nat);
    }
}

/// Appends the decimal text of `n`.
fn push_decimal(out: &mut Vec<u8>, n: u32)
    ensures
        final(out)@ == old(out)@ + decimal(n as nat),
    decreases n,
{
    if n >= 10 {
        push_decimal(out, n / 10);
    }
    out.push(48u8 + (n % 10) as u8);
    assert(out@ =~= old(out)@ + decimal(n as nat));
}

/// Reads the decimal number that starts at `start`: a run of digits with no
/// leading zero, that fits in `u32`. Gives the number and where the run ends.
fn parse_field(s: &[u8], start: usize) -> (r: Option<(u32, usize)>)
    requires
        start <= s@.len(),
    ensures
        match r {
            Some((n, end)) => field_at(s@, start as int, n as nat) && end == start + width(n),
            None => forall|n: u32| !#[trigger] field_at(s@, start as int, n as nat),
        },
{
    let mut end: usize = start;
    while end < s.len() && 48u8 <= s[end] && s[end] <= 57u8
        invariant
            start <= end <= s@.len(),
            forall|i: int| start <= i < end ==> is_digit(#[trigger] s@[i]),
        decreases s@.len() - end,
    {
        end = end + 1;
    }
    let ghost run = s@.subrange(start as int, end as int);
    assert forall|n: u32| #[trigger] field_at(s@, start as int, n as nat) implies start + width(
        n,
    ) == end by {
        lemma_decimal(n as nat);
        let d = decimal(n as nat);
        let e = start + d.len();
        if e < end {
            assert(is_digit(s@[e]));
        } else if e > end {
            assert(s@.subrange(start as int, e)[end - start] == s@[end as int]);
        }
    }
    if end == start {
        proof {
            assert forall|n: u32| !#[trigger] field_at(s@, start as int, n as nat) by {
                lemma_decimal(n as nat);
            }
        }
        return None;
    }
    if s[start] == 48u8 && end - start > 1 {
        proof {
            assert forall|n: u32| !#[trigger] field_at(s@, start as int, n as nat) by {
                lemma_decimal(n as nat);
                if field_at(s@, start as int, n as nat) {
                    assert(s@.subrange(start as int, start + width(n))[0] == s@[start as int]);
                }
            }
        }
        return None;
    }
    let mut acc: u64 = 0;
    let mut i: usize = start;
    assert(s@.subrange(start as int, start as int) =~= Seq::<u8>::empty());
    while i < end
        invariant
            start <= i <= end <= s@.len(),
            forall|k: int| start <= k < end ==> is_digit(#[trigger] s@[k]),
            acc == value_of(s@.subrange(start as int, i as int)),
            acc <= 0xffff_ffff,
            run == s@.subrange(start as int, end as int),
            forall|n: u32| #[trigger]
                field_at(s@, start as int, n as nat) ==> start + width(n) == end,
        decreases end - i,
    {
        let ghost next_prefix = s@.subrange(start as int, i + 1);
        assert(next_prefix.drop_last() =~= s@.subrange(start as int, i as int));
        let next = acc * 10 + (s[i] - 48u8) as u64;
        if next > 0xffff_ffff {
            proof {
                assert forall|k: int| 0 <= k < run.len() implies is_digit(#[trigger] run[k]) by {
                    assert(run[k] == s@[start + k]);
                }
                lemma_value_prefix(run, i + 1 - start);
                assert(run.subrange(0, i + 1 - start) =~= next_prefix);
                assert forall|n: u32| !#[trigger] field_at(s@, start as int, n as nat) by {
                    lemma_decimal(n as nat);
                    if field_at(s@, start as int, n as nat) {
                        assert(run == decimal(n as nat));
                    }
                }
            }
            return None;
        }
        acc = next;
        i = i + 1;
    }
    proof {
        assert forall|k: int| 0 <= k < run.len() implies is_digit(#[trigger] run[k]) by {
            assert(run[k] == s@[start + k]);
        }
        lemma_canonical(run);
    }
    Some((acc as u32, end))
}

impl Version {
    pub fn new(major: u32, minor: u32, patch: u32) -> (r: Version)
        ensures
            r.major == major,
            r.minor == minor,
            r.patch == patch,
    {
        Version { major, minor, patch }
    }

    /// The text of this version, `major.minor.patch`, as ASCII bytes.
    pub fn encode(&self) -> (r: Vec<u8>)
        ensures
            r@ == version_text(*self),
    {
        let mut out: Vec<u8> = Vec::new();
        push_decimal(&mut out, self.major);
        out.push(DOT);
        push_decimal(&mut out, self.minor);
        out.push(DOT);
        push_decimal(&mut out, self.patch);
        assert(out@ =~= version_text(*self));
        out
    }

    /// Reads a version from its text, `major.minor.patch`. Gives `None`
    /// exactly when the bytes are the text of no version: a part is missing,
    /// has a leading zero or does not fit in `u32`, or something else stands
    /// between or after the parts.
    pub fn decode(bytes: &[u8]) -> (r: Option<Version>)
        ensures
            match r {
                Some(v) => bytes@ == version_text(v),
                None => forall|w: Version| #[trigger] version_text(w) != bytes@,
            },
    {
        let len = bytes.len();
        let (major, e1) = match parse_field(bytes, 0) {
            Some(p) => p,
            None => {
                proof {
                    assert forall|w: Version| #[trigger] version_text(w) != bytes@ by {
                        lemma_version_text_layout(w);
                    }
                }
                return None;
            },
        };
        if e1 >= len || bytes[e1] != DOT {
            proof {
                assert forall|w: Version| #[trigger] version_text(w) != bytes@ by {
                    lemma_version_text_layout(w);
                    if version_text(w) == bytes@ {
                        lemma_field_unique(bytes@, 0, major as nat, w.major as nat);
                    }
                }
            }
            return None;
        }
        let (minor, e2) = match parse_field(bytes, e1 + 1) {
            Some(p) => p,
            None => {
                proof {
                    assert forall|w: Version| #[trigger] version_text(w) != bytes@ by {
                        lemma_version_text_layout(w);
                        if version_text(w) == bytes@ {
                            lemma_field_unique(bytes@, 0, major as nat, w.major as nat);
                        }
                    }
                }
                return None;
            },
        };
        if e2 >= len || bytes[e2] != DOT {
            proof {
                assert forall|w: Version| #[trigger] version_text(w) != bytes@ by {
                    lemma_version_text_layout(w);
                    if version_text(w) == bytes@ {
                        lemma_field_unique(bytes@, 0, major as nat, w.major as nat);
                        lemma_field_unique(bytes@, e1 + 1, minor as nat, w.minor as nat);
                    }
                }
            }
            return None;
        }
        let (patch, e3) = match parse_field(bytes, e2 + 1) {
            Some(p) => p,
            None => {
                proof {
                    assert forall|w: Version| #[trigger] version_text(w) != bytes@ by {
                        lemma_version_text_layout(w);
                        if version_text(w) == bytes@ {
                            lemma_field_unique(bytes@, 0, major as nat, w.major as nat);
                            lemma_field_unique(bytes@, e1 + 1, minor as nat, w.minor as nat);
                        }
                    }
                }
                return None;
            },
        };
        if e3 != len {
            proof {
                assert forall|w: Version| #[trigger] version_text(w) != bytes@ by {
                    lemma_version_text_layout(w);
                    if version_text(w) == bytes@ {
                        lemma_field_unique(bytes@, 0, major as nat, w.major as nat);
                        lemma_field_unique(bytes@, e1 + 1, minor as nat, w.minor as nat);
                        lemma_field_unique(bytes@, e2 + 1, patch as nat, w.patch as nat);
                    }
                }
            }
            return None;
        }
        let v = Version { major, minor, patch };
        proof {
            lemma_version_text_layout(v);
            let t = version_text(v);
            assert(t.len() == bytes@.len());
            assert forall|k: int| 0 <= k < t.len() implies t[k] == bytes@[k] by {
                if k < e1 {
                    assert(t.subrange(0, e1 as int)[k] == bytes@.subrange(0, e1 as int)[k]);
                } else if e1 < k < e2 {
                    assert(t.subrange(e1 + 1, e2 as int)[k - e1 - 1] == bytes@.subrange(
                        e1 + 1,
                        e2 as int,
                    )[k - e1 - 1]);
                } else if e2 < k {
                    assert(t.subrange(e2 + 1, e3 as int)[k - e2 - 1] == bytes@.subrange(
                        e2 + 1,
                        e3 as int,
                    )[k - e2 - 1]);
                }
            }
            assert(t =~= bytes@);
        }
        Some(v)
    }
}

} // verus!
