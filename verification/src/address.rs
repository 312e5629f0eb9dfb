//! Structured network addresses and their canonical text form.
//!
//! An address is a non-empty sequence of protocol/value segments rendered as
//! `/ip4/A.B.C.D` and `/tcp/PORT` runs, for example `/ip4/5.6.7.8/tcp/12345`.
//! Every address has exactly one canonical rendering and that rendering
//! parses back to the same address; the parser accepts canonical renderings
//! only, and rejects anything else (unknown segment tags, malformed or
//! out-of-range values, leading zeros, trailing or missing data, bytes
//! outside printable ASCII) with a parse error rather than a crash.
//!
//! Byte values used throughout: `/` is 47, `.` is 46, the digits are 48..57,
//! `ip4` is 105,112,52 and `tcp` is 116,99,112.

use vstd::prelude::*;
use vstd::slice::slice_subrange;

verus! {

/// One protocol/value segment of an address.
#[derive(Clone, Copy, Debug, PartialEq, Eq, Structural)]
pub enum Segment {
    /// An IPv4 address, one field per dotted octet.
    Ip4(u8, u8, u8, u8),
    /// A TCP port.
    Tcp(u16),
}

/// A structured, self-describing network endpoint.
#[derive(Clone, Debug, PartialEq, Eq)]
pub struct Address {
    /// The segments, outermost protocol first.
    pub segments: Vec<Segment>,
}

impl View for Address {
    type V = Seq<Segment>;

    open spec fn view(&self) -> Seq<Segment> {
        self.segments@
    }
}

impl DeepView for Address {
    type V = Seq<Segment>;

    open spec fn deep_view(&self) -> Seq<Segment> {
        self.segments@
    }
}

/// A well-formed address names at least one segment.
pub open spec fn addr_wf(segs: Seq<Segment>) -> bool {
    segs.len() >= 1
}

/// The input was not the canonical rendering of any address.
#[derive(Clone, Copy, Debug, PartialEq, Eq, Structural)]
pub struct AddressParseError;

// ---------------------------------------------------------------------------
// Canonical decimal rendering of segment values.
// ---------------------------------------------------------------------------

/// Whether `b` is an ASCII digit.
pub open spec fn is_digit(b: u8) -> bool {
    48 <= b <= 57
}

/// Whether every byte of `s` is an ASCII digit.
pub open spec fn all_digits(s: Seq<u8>) -> bool {
    forall|i: int| 0 <= i < s.len() ==> is_digit(#[trigger] s[i])
}

/// Whether `s` is a canonical decimal: non-empty, digits only, and no
/// leading zero unless the number is exactly `0`.
pub open spec fn is_canonical_dec(s: Seq<u8>) -> bool {
    &&& s.len() >= 1
    &&& all_digits(s)
    &&& (s[0] != 48 || s.len() == 1)
}

/// The decimal digits of `n`, most significant first.
pub open spec fn spec_dec(n: nat) -> Seq<u8>
    decreases n,
{
    if n < 10 {
        seq![(n + 48) as u8]
    } else {
        spec_dec(n / 10) + seq![((n % 10) + 48) as u8]
    }
}

/// The number a digit string denotes; non-digit bytes count as zero.
pub open spec fn dec_val(s: Seq<u8>) -> nat
    decreases s.len(),
{
    if s.len() == 0 {
        0
    } else {
        dec_val(s.drop_last()) * 10 + (if is_digit(s.last()) {
            (s.last() - 48) as nat
        } else {
            0
        })
    }
}

/// A strict decimal parse, bounded by `max`.
pub open spec fn spec_parse_dec_max(s: Seq<u8>, max: nat) -> Option<nat> {
    if is_canonical_dec(s) && dec_val(s) <= max {
        Some(dec_val(s))
    } else {
        None
    }
}

/// The canonical rendering of `n` is a canonical decimal denoting `n`.
pub proof fn lemma_dec_props(n: nat)
    ensures
        spec_dec(n).len() >= 1,
        all_digits(spec_dec(n)),
        is_canonical_dec(spec_dec(n)),
        dec_val(spec_dec(n)) == n,
        n >= 1 ==> spec_dec(n)[0] != 48,
    decreases n,
{
    if n < 10 {
        assert(spec_dec(n) == seq![(n + 48) as u8]);
        assert(spec_dec(n).drop_last() =~= Seq::<u8>::empty());
        assert(spec_dec(n).last() == (n + 48) as u8);
        assert(is_digit((n + 48) as u8));
        assert(dec_val(spec_dec(n)) == dec_val(Seq::<u8>::empty()) * 10 + n);
    } else {
        assert(n / 10 < n) by (nonlinear_arith)
            requires
                n >= 10,
        ;
        assert(n / 10 >= 1) by (nonlinear_arith)
            requires
                n >= 10,
        ;
        lemma_dec_props(n / 10);
        let head = spec_dec(n / 10);
        let e = spec_dec(n);
        assert(e == head + seq![((n % 10) + 48) as u8]);
        assert(e.drop_last() =~= head);
        assert(e.last() == ((n % 10) + 48) as u8);
        vstd::arithmetic::div_mod::lemma_fundamental_div_mod(n as int, 10);
        assert(dec_val(e) == (n / 10) * 10 + n % 10);
        assert forall|i: int| 0 <= i < e.len() implies is_digit(#[trigger] e[i]) by {
            if i < head.len() {
                assert(e[i] == head[i]);
            }
        }
        assert(e[0] == head[0]);
    }
}

/// A longer digit string never denotes a smaller number.
pub proof fn lemma_dec_val_grows(s: Seq<u8>, k: int)
    requires
        0 <= k <= s.len(),
    ensures
        dec_val(s.take(k)) <= dec_val(s),
    decreases s.len() - k,
{
    if k == s.len() {
        assert(s.take(k) =~= s);
    } else {
        assert(s.take(k + 1).drop_last() =~= s.take(k));
        assert(dec_val(s.take(k)) * 10 >= dec_val(s.take(k)));
        lemma_dec_val_grows(s, k + 1);
    }
}

// ---------------------------------------------------------------------------
// Scanning for a separator.
// ---------------------------------------------------------------------------

/// The index of the first `stop` byte at or after `i`, or the length of `s`.
pub open spec fn spec_run_end(s: Seq<u8>, i: int, stop: u8) -> int
    decreases s.len() - i,
{
    if !(0 <= i < s.len()) {
        i
    } else if s[i] == stop {
        i
    } else {
        spec_run_end(s, i + 1, stop)
    }
}

/// `spec_run_end` stays within bounds and is pinned by its witnesses.
pub proof fn lemma_run_end_is(s: Seq<u8>, i: int, stop: u8, k: int)
    requires
        0 <= i <= k <= s.len(),
        forall|j: int| i <= j < k ==> s[j] != stop,
        k == s.len() || s[k] == stop,
    ensures
        spec_run_end(s, i, stop) == k,
    decreases k - i,
{
    if i == k {
    } else {
        assert(s[i] != stop);
        lemma_run_end_is(s, i + 1, stop, k);
    }
}

/// Scans `s` from `start` for `stop`, returning its index or the length.
pub(crate) fn find_byte(s: &[u8], start: usize, stop: u8) -> (r: usize)
    requires
        start <= s@.len(),
    ensures
        start <= r <= s@.len(),
        r == spec_run_end(s@, start as int, stop),
        r < s@.len() ==> s@[r as int] == stop,
{
    let len = s.len();
    let mut i = start;
    while i < len
        invariant
            start <= i <= len,
            len == s@.len(),
            spec_run_end(s@, start as int, stop) == spec_run_end(s@, i as int, stop),
        decreases len - i,
    {
        if s[i] == stop {
            return i;
        }
        i = i + 1;
    }
    i
}

// ---------------------------------------------------------------------------
// Encoding.
// ---------------------------------------------------------------------------

/// The dotted-decimal value of an IPv4 segment.
pub open spec fn spec_ip4_val(a: u8, b: u8, c: u8, d: u8) -> Seq<u8> {
    spec_dec(a as nat) + seq![46u8] + spec_dec(b as nat) + seq![46u8] + spec_dec(c as nat)
        + seq![46u8] + spec_dec(d as nat)
}

/// The canonical rendering of one segment, leading slash included.
pub open spec fn spec_encode_segment(seg: Segment) -> Seq<u8> {
    match seg {
        Segment::Ip4(a, b, c, d) => seq![47u8, 105u8, 112u8, 52u8, 47u8] + spec_ip4_val(
            a,
            b,
            c,
            d,
        ),
        Segment::Tcp(p) => seq![47u8, 116u8, 99u8, 112u8, 47u8] + spec_dec(p as nat),
    }
}

/// The canonical rendering of a whole address.
pub open spec fn spec_encode_address(segs: Seq<Segment>) -> Seq<u8>
    decreases segs.len(),
{
    if segs.len() == 0 {
        Seq::empty()
    } else {
        spec_encode_segment(segs[0]) + spec_encode_address(segs.drop_first())
    }
}

/// Encoding one more segment appends its rendering.
pub proof fn lemma_encode_address_snoc(segs: Seq<Segment>, seg: Segment)
    ensures
        spec_encode_address(segs.push(seg)) == spec_encode_address(segs) + spec_encode_segment(
            seg,
        ),
    decreases segs.len(),
{
    if segs.len() == 0 {
        assert(segs.push(seg).drop_first() =~= Seq::<Segment>::empty());
        assert(segs.push(seg)[0] == seg);
        assert(spec_encode_address(segs.push(seg)) == spec_encode_segment(seg)
            + spec_encode_address(Seq::<Segment>::empty()));
        assert(spec_encode_address(segs.push(seg)) =~= spec_encode_address(segs)
            + spec_encode_segment(seg));
    } else {
        assert(segs.push(seg)[0] == segs[0]);
        assert(segs.push(seg).drop_first() =~= segs.drop_first().push(seg));
        lemma_encode_address_snoc(segs.drop_first(), seg);
        assert(spec_encode_segment(segs[0]) + (spec_encode_address(segs.drop_first())
            + spec_encode_segment(seg)) =~= (spec_encode_segment(segs[0]) + spec_encode_address(
            segs.drop_first(),
        )) + spec_encode_segment(seg));
    }
}

/// Appends the decimal rendering of `n` to `out`.
pub(crate) fn push_dec(out: &mut Vec<u8>, n: u16)
    ensures
        final(out)@ == old(out)@ + spec_dec(n as nat),
    decreases n,
{
    if n < 10 {
        out.push((n as u8) + 48);
        proof {
            assert(old(out)@ + spec_dec(n as nat) =~= old(out)@.push((n + 48) as u8));
        }
    } else {
        push_dec(out, n / 10);
        out.push(((n % 10) as u8) + 48);
        proof {
            assert(old(out)@ + spec_dec(n as nat) =~= (old(out)@ + spec_dec((n / 10) as nat)).push(
                (((n as nat) % 10) + 48) as u8,
            ));
        }
    }
}

/// Appends the canonical rendering of one segment to `out`.
pub(crate) fn push_segment(out: &mut Vec<u8>, seg: Segment)
    ensures
        final(out)@ == old(out)@ + spec_encode_segment(seg),
{
    match seg {
        Segment::Ip4(a, b, c, d) => {
            out.push(47);
            out.push(105);
            out.push(112);
            out.push(52);
            out.push(47);
            push_dec(out, a as u16);
            out.push(46);
            push_dec(out, b as u16);
            out.push(46);
            push_dec(out, c as u16);
            out.push(46);
            push_dec(out, d as u16);
            proof {
                assert(out@ =~= old(out)@ + spec_encode_segment(seg));
            }
        },
        Segment::Tcp(p) => {
            out.push(47);
            out.push(116);
            out.push(99);
            out.push(112);
            out.push(47);
            push_dec(out, p);
            proof {
                assert(out@ =~= old(out)@ + spec_encode_segment(seg));
            }
        },
    }
}

/// Renders `a` in its canonical text form, as UTF-8 bytes.
pub fn encode_address(a: &Address) -> (r: Vec<u8>)
    ensures
        r@ == spec_encode_address(a@),
{
    let mut out: Vec<u8> = Vec::new();
    let n = a.segments.len();
    let mut i: usize = 0;
    while i < n
        invariant
            i <= n,
            n == a.segments@.len(),
            out@ == spec_encode_address(a.segments@.take(i as int)),
        decreases n - i,
    {
        push_segment(&mut out, a.segments[i]);
        proof {
            assert(a.segments@.take(i as int).push(a.segments@[i as int]) =~= a.segments@.take(
                i as int + 1,
            ));
            lemma_encode_address_snoc(a.segments@.take(i as int), a.segments@[i as int]);
        }
        i = i + 1;
    }
    proof {
        assert(a.segments@.take(n as int) =~= a.segments@);
    }
    out
}

// ---------------------------------------------------------------------------
// Parsing.
// ---------------------------------------------------------------------------

/// Parses a dotted-decimal IPv4 value: four canonical octets.
pub open spec fn spec_parse_ip4(v: Seq<u8>) -> Option<Segment> {
    let e1 = spec_run_end(v, 0, 46);
    if e1 >= v.len() {
        None
    } else {
        let e2 = spec_run_end(v, e1 + 1, 46);
        if e2 >= v.len() {
            None
        } else {
            let e3 = spec_run_end(v, e2 + 1, 46);
            if e3 >= v.len() {
                None
            } else if spec_run_end(v, e3 + 1, 46) != v.len() {
                None
            } else {
                match (
                    spec_parse_dec_max(v.subrange(0, e1), 255),
                    spec_parse_dec_max(v.subrange(e1 + 1, e2), 255),
                    spec_parse_dec_max(v.subrange(e2 + 1, e3), 255),
                    spec_parse_dec_max(v.subrange(e3 + 1, v.len() as int), 255),
                ) {
                    (Some(a), Some(b), Some(c), Some(d)) => Some(
                        Segment::Ip4(a as u8, b as u8, c as u8, d as u8),
                    ),
                    _ => None,
                }
            }
        }
    }
}

/// Parses one segment of `s` starting at `i`: a slash, a known three-letter
/// tag, a slash, and a non-empty value running to the next slash or the end.
/// Returns the segment and the index just past it.
pub open spec fn spec_parse_segment(s: Seq<u8>, i: int) -> Option<(Segment, int)> {
    if i < 0 || i + 5 > s.len() {
        None
    } else if s[i] != 47 || s[i + 4] != 47 {
        None
    } else {
        let vend = spec_run_end(s, i + 5, 47);
        let val = s.subrange(i + 5, vend);
        if val.len() == 0 {
            None
        } else if s[i + 1] == 105 && s[i + 2] == 112 && s[i + 3] == 52 {
            match spec_parse_ip4(val) {
                Some(seg) => Some((seg, vend)),
                None => None,
            }
        } else if s[i + 1] == 116 && s[i + 2] == 99 && s[i + 3] == 112 {
            match spec_parse_dec_max(val, 65535) {
                Some(p) => Some((Segment::Tcp(p as u16), vend)),
                None => None,
            }
        } else {
            None
        }
    }
}

/// Parses segments from `i` to the end of `s`.
pub open spec fn spec_parse_segments(s: Seq<u8>, i: int) -> Option<Seq<Segment>>
    decreases s.len() - i,
{
    if !(0 <= i <= s.len()) {
        None
    } else if i == s.len() {
        Some(Seq::empty())
    } else {
        match spec_parse_segment(s, i) {
            None => None,
            Some((seg, next)) => if i < next <= s.len() {
                match spec_parse_segments(s, next) {
                    None => None,
                    Some(rest) => Some(seq![seg] + rest),
                }
            } else {
                None
            },
        }
    }
}

/// Parses a whole address: non-empty, and segments covering every byte.
pub open spec fn spec_parse_address(s: Seq<u8>) -> Option<Seq<Segment>> {
    if s.len() == 0 {
        None
    } else {
        spec_parse_segments(s, 0)
    }
}

/// Strict bounded decimal parse of `s[start..end]`.
pub(crate) fn parse_dec(s: &[u8], start: usize, end: usize, max: u16) -> (r: Option<u16>)
    requires
        start <= end <= s@.len(),
    ensures
        ({
            let sub = s@.subrange(start as int, end as int);
            match r {
                Some(v) => spec_parse_dec_max(sub, max as nat) == Some(v as nat),
                None => spec_parse_dec_max(sub, max as nat) is None,
            }
        }),
{
    let ghost sub = s@.subrange(start as int, end as int);
    if start == end {
        return None;
    }
    if end - start > 1 && s[start] == 48 {
        proof {
            assert(sub[0] == s@[start as int]);
        }
        return None;
    }
    let mut acc: u32 = 0;
    let mut i = start;
    while i < end
        invariant
            start <= i <= end,
            end <= s@.len(),
            sub == s@.subrange(start as int, end as int),
            all_digits(sub.take((i - start) as int)),
            acc as nat == dec_val(sub.take((i - start) as int)),
            acc <= max,
        decreases end - i,
    {
        let b = s[i];
        proof {
            assert(sub[(i - start) as int] == s@[i as int]);
        }
        if b < 48 || b > 57 {
            return None;
        }
        acc = acc * 10 + ((b - 48) as u32);
        proof {
            assert(sub.take((i - start) as int + 1).drop_last() =~= sub.take((i - start) as int));
            assert(sub.take((i - start) as int + 1).last() == s@[i as int]);
            assert forall|j: int| 0 <= j < (i - start) as int + 1 implies is_digit(
                #[trigger] sub.take((i - start) as int + 1)[j],
            ) by {
                if j < (i - start) as int {
                    assert(sub.take((i - start) as int + 1)[j] == sub.take((i - start) as int)[j]);
                }
            }
        }
        i = i + 1;
        if acc > max as u32 {
            proof {
                lemma_dec_val_grows(sub, (i - start) as int);
            }
            return None;
        }
    }
    proof {
        assert(sub.take((end - start) as int) =~= sub);
    }
    Some(acc as u16)
}

/// Parses a dotted-decimal IPv4 value.
pub(crate) fn parse_ip4_val(v: &[u8]) -> (r: Option<Segment>)
    ensures
        r == spec_parse_ip4(v@),
{
    let len = v.len();
    let e1 = find_byte(v, 0, 46);
    if e1 >= len {
        return None;
    }
    let e2 = find_byte(v, e1 + 1, 46);
    if e2 >= len {
        return None;
    }
    let e3 = find_byte(v, e2 + 1, 46);
    if e3 >= len {
        return None;
    }
    let e4 = find_byte(v, e3 + 1, 46);
    if e4 != len {
        return None;
    }
    let a = match parse_dec(v, 0, e1, 255) {
        Some(x) => x,
        None => {
            return None;
        },
    };
    let b = match parse_dec(v, e1 + 1, e2, 255) {
        Some(x) => x,
        None => {
            return None;
        },
    };
    let c = match parse_dec(v, e2 + 1, e3, 255) {
        Some(x) => x,
        None => {
            return None;
        },
    };
    let d = match parse_dec(v, e3 + 1, len, 255) {
        Some(x) => x,
        None => {
            return None;
        },
    };
    Some(Segment::Ip4(a as u8, b as u8, c as u8, d as u8))
}

/// Parses the canonical text form of an address, handed as UTF-8 bytes.
/// Returns a parse error on anything that is not the canonical rendering of
/// some address.
pub fn decode_address(s: &[u8]) -> (r: Result<Address, AddressParseError>)
    ensures
        match spec_parse_address(s@) {
            Some(segs) => r matches Ok(a) && a@ == segs,
            None => r is Err,
        },
{
    let len = s.len();
    if len == 0 {
        return Err(AddressParseError);
    }
    let mut segments: Vec<Segment> = Vec::new();
    let mut i: usize = 0;
    while i < len
        invariant
            i <= len,
            len == s@.len(),
            len > 0,
            spec_parse_segments(s@, 0) == (match spec_parse_segments(s@, i as int) {
                None => None::<Seq<Segment>>,
                Some(rest) => Some(segments@ + rest),
            }),
        decreases len - i,
    {
        if len - i < 5 {
            return Err(AddressParseError);
        }
        if s[i] != 47 {
            return Err(AddressParseError);
        }
        if s[i + 4] != 47 {
            return Err(AddressParseError);
        }
        let vend = find_byte(s, i + 5, 47);
        if vend == i + 5 {
            proof {
                assert(s@.subrange(i as int + 5, vend as int) =~= Seq::<u8>::empty());
            }
            return Err(AddressParseError);
        }
        let seg: Segment;
        if s[i + 1] == 105 && s[i + 2] == 112 && s[i + 3] == 52 {
            match parse_ip4_val(slice_subrange(s, i + 5, vend)) {
                Some(sg) => {
                    seg = sg;
                },
                None => {
                    return Err(AddressParseError);
                },
            }
        } else if s[i + 1] == 116 && s[i + 2] == 99 && s[i + 3] == 112 {
            match parse_dec(s, i + 5, vend, 65535) {
                Some(p) => {
                    seg = Segment::Tcp(p);
                },
                None => {
                    return Err(AddressParseError);
                },
            }
        } else {
            return Err(AddressParseError);
        }
        proof {
            assert(spec_parse_segment(s@, i as int) == Some::<(Segment, int)>((seg, vend as int)));
            let rest0 = spec_parse_segments(s@, i as int);
            let rest1 = spec_parse_segments(s@, vend as int);
            if rest1 is Some {
                assert(segments@ + (seq![seg] + rest1.unwrap()) =~= segments@.push(seg)
                    + rest1.unwrap());
            }
        }
        segments.push(seg);
        i = vend;
    }
    proof {
        assert(spec_parse_segments(s@, len as int) == Some(Seq::<Segment>::empty()));
        assert(segments@ + Seq::<Segment>::empty() =~= segments@);
    }
    Ok(Address { segments })
}

// ---------------------------------------------------------------------------
// Round trip.
// ---------------------------------------------------------------------------

/// The dotted IPv4 value holds no slash, and parses back to its octets.
proof fn lemma_parse_ip4_encode(a: u8, b: u8, c: u8, d: u8)
    ensures
        ({
            let v = spec_ip4_val(a, b, c, d);
            &&& v.len() >= 7
            &&& forall|j: int| 0 <= j < v.len() ==> #[trigger] v[j] != 47
            &&& spec_parse_ip4(v) == Some(Segment::Ip4(a, b, c, d))
        }),
{
    let v = spec_ip4_val(a, b, c, d);
    let da = spec_dec(a as nat);
    let db = spec_dec(b as nat);
    let dc = spec_dec(c as nat);
    let dd = spec_dec(d as nat);
    lemma_dec_props(a as nat);
    lemma_dec_props(b as nat);
    lemma_dec_props(c as nat);
    lemma_dec_props(d as nat);
    let la = da.len() as int;
    let lb = db.len() as int;
    let lc = dc.len() as int;
    let ld = dd.len() as int;
    let e1 = la;
    let e2 = la + 1 + lb;
    let e3 = la + 1 + lb + 1 + lc;
    assert(v.len() == la + lb + lc + ld + 3);
    assert(v.subrange(0, e1) =~= da);
    assert(v.subrange(e1 + 1, e2) =~= db);
    assert(v.subrange(e2 + 1, e3) =~= dc);
    assert(v.subrange(e3 + 1, v.len() as int) =~= dd);
    assert(v[e1] == 46 && v[e2] == 46 && v[e3] == 46);
    assert forall|j: int| 0 <= j < v.len() implies #[trigger] v[j] != 47 by {
        if j < e1 {
            assert(v[j] == da[j]);
            assert(is_digit(da[j]));
        } else if j == e1 {
        } else if j < e2 {
            assert(v[j] == db[j - e1 - 1]);
            assert(is_digit(db[j - e1 - 1]));
        } else if j == e2 {
        } else if j < e3 {
            assert(v[j] == dc[j - e2 - 1]);
            assert(is_digit(dc[j - e2 - 1]));
        } else if j == e3 {
        } else {
            assert(v[j] == dd[j - e3 - 1]);
            assert(is_digit(dd[j - e3 - 1]));
        }
    }
    assert forall|j: int| 0 <= j < e1 implies v[j] != 46 by {
        assert(v[j] == da[j]);
        assert(is_digit(da[j]));
    }
    lemma_run_end_is(v, 0, 46, e1);
    assert forall|j: int| e1 + 1 <= j < e2 implies v[j] != 46 by {
        assert(v[j] == db[j - e1 - 1]);
        assert(is_digit(db[j - e1 - 1]));
    }
    lemma_run_end_is(v, e1 + 1, 46, e2);
    assert forall|j: int| e2 + 1 <= j < e3 implies v[j] != 46 by {
        assert(v[j] == dc[j - e2 - 1]);
        assert(is_digit(dc[j - e2 - 1]));
    }
    lemma_run_end_is(v, e2 + 1, 46, e3);
    assert forall|j: int| e3 + 1 <= j < v.len() implies v[j] != 46 by {
        assert(v[j] == dd[j - e3 - 1]);
        assert(is_digit(dd[j - e3 - 1]));
    }
    lemma_run_end_is(v, e3 + 1, 46, v.len() as int);
}

/// The rendering of one segment, set anywhere in a larger string with a
/// slash or the end right after it, parses back to that segment.
proof fn lemma_parse_segment_encode(seg: Segment, s: Seq<u8>, i: int)
    requires
        0 <= i,
        i + spec_encode_segment(seg).len() <= s.len(),
        s.subrange(i, i + spec_encode_segment(seg).len() as int) == spec_encode_segment(seg),
        i + spec_encode_segment(seg).len() == s.len() || s[i + spec_encode_segment(seg).len()]
            == 47,
    ensures
        spec_parse_segment(s, i) == Some::<(Segment, int)>(
            (seg, i + spec_encode_segment(seg).len() as int),
        ),
{
    let e = spec_encode_segment(seg);
    let elen = e.len() as int;
    assert forall|k: int| 0 <= k < elen implies s[i + k] == #[trigger] e[k] by {
        assert(s.subrange(i, i + elen)[k] == s[i + k]);
    }
    match seg {
        Segment::Ip4(a, b, c, d) => {
            lemma_parse_ip4_encode(a, b, c, d);
            let v = spec_ip4_val(a, b, c, d);
            assert(e[0] == 47 && e[1] == 105 && e[2] == 112 && e[3] == 52 && e[4] == 47);
            assert forall|j: int| i + 5 <= j < i + elen implies s[j] != 47 by {
                assert(s[j] == e[j - i]);
                assert(e[j - i] == v[j - i - 5]);
            }
            lemma_run_end_is(s, i + 5, 47, i + elen);
            assert forall|k: int| 0 <= k < elen - 5 implies s.subrange(i + 5, i + elen)[k]
                == v[k] by {
                assert(s[i + 5 + k] == e[5 + k]);
                assert(e[5 + k] == v[k]);
            }
            assert(s.subrange(i + 5, i + elen) =~= v);
        },
        Segment::Tcp(p) => {
            lemma_dec_props(p as nat);
            let dp = spec_dec(p as nat);
            assert(e[0] == 47 && e[1] == 116 && e[2] == 99 && e[3] == 112 && e[4] == 47);
            assert forall|j: int| i + 5 <= j < i + elen implies s[j] != 47 by {
                assert(s[j] == e[j - i]);
                assert(e[j - i] == dp[j - i - 5]);
                assert(is_digit(dp[j - i - 5]));
            }
            lemma_run_end_is(s, i + 5, 47, i + elen);
            assert forall|k: int| 0 <= k < elen - 5 implies s.subrange(i + 5, i + elen)[k]
                == dp[k] by {
                assert(s[i + 5 + k] == e[5 + k]);
                assert(e[5 + k] == dp[k]);
            }
            assert(s.subrange(i + 5, i + elen) =~= dp);
        },
    }
}

/// Renderings of segments start with a slash and are at least six bytes.
proof fn lemma_encode_segment_first(seg: Segment)
    ensures
        spec_encode_segment(seg).len() >= 6,
        spec_encode_segment(seg)[0] == 47,
{
    match seg {
        Segment::Ip4(a, b, c, d) => {
            lemma_parse_ip4_encode(a, b, c, d);
        },
        Segment::Tcp(p) => {
            lemma_dec_props(p as nat);
        },
    }
}

/// The rendering of any segment list, placed at `i` and running to the end
/// of `s`, parses back to that list.
proof fn lemma_parse_segments_encode(segs: Seq<Segment>, s: Seq<u8>, i: int)
    requires
        0 <= i <= s.len(),
        s.subrange(i, s.len() as int) == spec_encode_address(segs),
    ensures
        spec_parse_segments(s, i) == Some(segs),
    decreases segs.len(),
{
    if segs.len() == 0 {
        assert(s.subrange(i, s.len() as int).len() == 0);
        assert(segs =~= Seq::<Segment>::empty());
    } else {
        let e0 = spec_encode_segment(segs[0]);
        let rest_enc = spec_encode_address(segs.drop_first());
        let elen = e0.len() as int;
        let full = spec_encode_address(segs);
        assert(full == e0 + rest_enc);
        lemma_encode_segment_first(segs[0]);
        assert forall|k: int| 0 <= k < full.len() implies s[i + k] == #[trigger] full[k] by {
            assert(s.subrange(i, s.len() as int)[k] == s[i + k]);
        }
        assert forall|k: int| 0 <= k < elen implies s.subrange(i, i + elen)[k] == e0[k] by {
            assert(s[i + k] == full[k]);
            assert(full[k] == e0[k]);
        }
        assert(s.subrange(i, i + elen) =~= e0);
        if rest_enc.len() == 0 {
            assert(i + elen == s.len());
        } else {
            lemma_encode_segment_first(segs.drop_first()[0]);
            assert(rest_enc[0] == spec_encode_segment(segs.drop_first()[0])[0]);
            assert(s[i + elen] == full[elen]);
            assert(full[elen] == rest_enc[0]);
        }
        lemma_parse_segment_encode(segs[0], s, i);
        assert forall|k: int| 0 <= k < rest_enc.len() implies s.subrange(
            i + elen,
            s.len() as int,
        )[k] == rest_enc[k] by {
            assert(s[i + elen + k] == full[elen + k]);
            assert(full[elen + k] == rest_enc[k]);
        }
        assert(s.subrange(i + elen, s.len() as int) =~= rest_enc);
        lemma_parse_segments_encode(segs.drop_first(), s, i + elen);
        assert(seq![segs[0]] + segs.drop_first() =~= segs);
    }
}

/// Address round trip: the canonical rendering of any well-formed address
/// parses back to exactly that address.
pub proof fn lemma_address_round_trip(segs: Seq<Segment>)
    requires
        addr_wf(segs),
    ensures
        spec_parse_address(spec_encode_address(segs)) == Some(segs),
{
    let s = spec_encode_address(segs);
    lemma_encode_segment_first(segs[0]);
    assert(s.len() >= spec_encode_segment(segs[0]).len());
    assert(s.subrange(0, s.len() as int) =~= s);
    lemma_parse_segments_encode(segs, s, 0);
}

} // verus!
