//! Tagged binary field encoding of the identify message.
//!
//! Each field is one tag byte (field number shifted left three times, low
//! bits marking a length-prefixed value), a varint byte count, and that many
//! bytes.  Fields are written in field-number order: public key (1), each
//! listen address (2), each supported protocol (3), observed address (4),
//! protocol version (5), agent version (6).  A reader folds fields in
//! order: repeated fields accumulate, later scalar occurrences win, unknown
//! field numbers are skipped, and a field absent from the input is left at
//! its empty default.

use crate::frame::push_bytes;
use crate::varint::{
    decode_varint, lemma_varint_parse_encode, push_varint, spec_varint, spec_varint_parse,
};
use vstd::prelude::*;
use vstd::slice::{slice_subrange, slice_to_vec};

verus! {

/// The six wire fields of one message, as raw byte strings.
pub struct RawMessageV {
    pub public_key: Seq<u8>,
    pub listen_addrs: Seq<Seq<u8>>,
    pub protocols: Seq<Seq<u8>>,
    pub observed_addr: Seq<u8>,
    pub protocol_version: Seq<u8>,
    pub agent_version: Seq<u8>,
}

/// The same fields as owned values, filled by the field parser.
pub struct RawMessage {
    pub public_key: Vec<u8>,
    pub listen_addrs: Vec<Vec<u8>>,
    pub protocols: Vec<Vec<u8>>,
    pub observed_addr: Vec<u8>,
    pub protocol_version: Vec<u8>,
    pub agent_version: Vec<u8>,
}

impl View for RawMessage {
    type V = RawMessageV;

    open spec fn view(&self) -> RawMessageV {
        RawMessageV {
            public_key: self.public_key@,
            listen_addrs: self.listen_addrs.deep_view(),
            protocols: self.protocols.deep_view(),
            observed_addr: self.observed_addr@,
            protocol_version: self.protocol_version@,
            agent_version: self.agent_version@,
        }
    }
}

/// One encoded field: tag byte, varint byte count, bytes.
pub open spec fn spec_field(num: nat, data: Seq<u8>) -> Seq<u8> {
    seq![((num * 8) + 2) as u8] + spec_varint(data.len()) + data
}

/// A repeated field: one occurrence per item, in order.
pub open spec fn spec_rep_fields(num: nat, items: Seq<Seq<u8>>) -> Seq<u8>
    decreases items.len(),
{
    if items.len() == 0 {
        Seq::empty()
    } else {
        spec_field(num, items[0]) + spec_rep_fields(num, items.drop_first())
    }
}

/// The whole message body, fields in field-number order.
pub open spec fn spec_encode_fields(m: RawMessageV) -> Seq<u8> {
    spec_field(1, m.public_key) + spec_rep_fields(2, m.listen_addrs) + spec_rep_fields(
        3,
        m.protocols,
    ) + spec_field(4, m.observed_addr) + spec_field(5, m.protocol_version) + spec_field(
        6,
        m.agent_version,
    )
}

/// Splits `s` into its (field number, bytes) occurrences, or `None` when a
/// tag is not a length-prefixed value, a prefix is truncated, or a count
/// runs past the end.
pub open spec fn spec_parse_fields(s: Seq<u8>) -> Option<Seq<(nat, Seq<u8>)>>
    decreases s.len(),
{
    if s.len() == 0 {
        Some(Seq::empty())
    } else {
        match spec_varint_parse(s) {
            None => None,
            Some((tag, tl)) => {
                if tag >= 0x1_0000_0000_0000_0000 || tag % 8 != 2 {
                    None
                } else {
                    match spec_varint_parse(s.skip(tl)) {
                        None => None,
                        Some((ln, ll)) => {
                            if tl + ll + ln > s.len() || tl + ll + ln < 1 {
                                None
                            } else {
                                let data = s.subrange(tl + ll, tl + ll + ln);
                                match spec_parse_fields(s.skip(tl + ll + ln)) {
                                    None => None,
                                    Some(rest) => Some(seq![(tag / 8, data)] + rest),
                                }
                            }
                        },
                    }
                }
            },
        }
    }
}

/// The empty message: every field at its default.
pub open spec fn spec_empty_raw() -> RawMessageV {
    RawMessageV {
        public_key: Seq::empty(),
        listen_addrs: Seq::empty(),
        protocols: Seq::empty(),
        observed_addr: Seq::empty(),
        protocol_version: Seq::empty(),
        agent_version: Seq::empty(),
    }
}

/// Folds one field occurrence into the message read so far.
pub open spec fn spec_apply_field(m: RawMessageV, num: nat, data: Seq<u8>) -> RawMessageV {
    if num == 1 {
        RawMessageV { public_key: data, ..m }
    } else if num == 2 {
        RawMessageV { listen_addrs: m.listen_addrs.push(data), ..m }
    } else if num == 3 {
        RawMessageV { protocols: m.protocols.push(data), ..m }
    } else if num == 4 {
        RawMessageV { observed_addr: data, ..m }
    } else if num == 5 {
        RawMessageV { protocol_version: data, ..m }
    } else if num == 6 {
        RawMessageV { agent_version: data, ..m }
    } else {
        m
    }
}

/// Folds a whole occurrence list, first to last.
pub open spec fn spec_fold_fields(fields: Seq<(nat, Seq<u8>)>) -> RawMessageV
    decreases fields.len(),
{
    if fields.len() == 0 {
        spec_empty_raw()
    } else {
        spec_apply_field(
            spec_fold_fields(fields.drop_last()),
            fields.last().0,
            fields.last().1,
        )
    }
}

/// Appends one encoded field to `out`.
pub(crate) fn push_field(out: &mut Vec<u8>, num: u8, data: &[u8])
    requires
        1 <= num <= 15,
    ensures
        final(out)@ == old(out)@ + spec_field(num as nat, data@),
{
    out.push(num * 8 + 2);
    push_varint(out, data.len() as u64);
    push_bytes(out, data);
    proof {
        assert(old(out)@ + spec_field(num as nat, data@) =~= old(out)@.push(
            (((num as nat) * 8) + 2) as u8,
        ) + spec_varint(data@.len()) + data@);
    }
}

/// Splits the whole of `s` into fields and folds them into a message.
pub fn parse_fields(s: &[u8]) -> (r: Option<RawMessage>)
    ensures
        match spec_parse_fields(s@) {
            Some(fields) => r matches Some(m) && m@ == spec_fold_fields(fields),
            None => r is None,
        },
{
    let len = s.len();
    let mut m = RawMessage {
        public_key: Vec::new(),
        listen_addrs: Vec::new(),
        protocols: Vec::new(),
        observed_addr: Vec::new(),
        protocol_version: Vec::new(),
        agent_version: Vec::new(),
    };
    let mut pos: usize = 0;
    let ghost mut done: Seq<(nat, Seq<u8>)> = Seq::empty();
    proof {
        assert(m@.listen_addrs =~= Seq::<Seq<u8>>::empty());
        assert(m@.protocols =~= Seq::<Seq<u8>>::empty());
        assert(m@.public_key =~= Seq::<u8>::empty());
        assert(m@.observed_addr =~= Seq::<u8>::empty());
        assert(m@.protocol_version =~= Seq::<u8>::empty());
        assert(m@.agent_version =~= Seq::<u8>::empty());
        assert(s@.skip(0) =~= s@);
        if spec_parse_fields(s@) is Some {
            assert(done + spec_parse_fields(s@).unwrap() =~= spec_parse_fields(s@).unwrap());
        }
    }
    while pos < len
        invariant
            pos <= len,
            len == s@.len(),
            spec_parse_fields(s@) == (match spec_parse_fields(s@.skip(pos as int)) {
                None => None::<Seq<(nat, Seq<u8>)>>,
                Some(rest) => Some(done + rest),
            }),
            m@ == spec_fold_fields(done),
        decreases len - pos,
    {
        let (tag, tend) = match decode_varint(s, pos) {
            Some(x) => x,
            None => {
                proof {
                    assert(s@.skip(pos as int).len() > 0);
                    assert(spec_parse_fields(s@.skip(pos as int)) is None);
                }
                return None;
            },
        };
        if tag % 8 != 2 {
            proof {
                assert(s@.skip(pos as int).len() > 0);
                assert((tag as nat) % 8 != 2);
                assert(spec_parse_fields(s@.skip(pos as int)) is None);
            }
            return None;
        }
        let num = tag / 8;
        let (ln, lend) = match decode_varint(s, tend) {
            Some(x) => x,
            None => {
                proof {
                    assert(s@.skip(pos as int).skip(tend - pos) =~= s@.skip(tend as int));
                    if spec_varint_parse(s@.skip(tend as int)) is Some {
                        // An oversized byte count cannot fit in the input.
                        crate::varint::lemma_varint_parse_len(s@.skip(tend as int));
                        assert(spec_parse_fields(s@.skip(pos as int)) is None);
                    }
                }
                return None;
            },
        };
        proof {
            assert(s@.skip(pos as int).skip(tend - pos) =~= s@.skip(tend as int));
        }
        let rem = len - lend;
        if ln > rem as u64 {
            return None;
        }
        let ln_us = ln as usize;
        let data = slice_to_vec(slice_subrange(s, lend, lend + ln_us));
        let ghost data_s = s@.subrange(lend as int, lend + ln_us as int);
        proof {
            assert(s@.skip(pos as int).subrange(
                (tend - pos) + (lend - tend),
                (tend - pos) + (lend - tend) + ln as int,
            ) =~= data_s);
            assert(s@.skip(pos as int).skip((lend - pos) + ln as int) =~= s@.skip(
                lend + ln as int,
            ));
            // One field is read at `pos`; the list there is this occurrence
            // followed by whatever parses after it.
            assert(spec_parse_fields(s@.skip(pos as int)) == (match spec_parse_fields(
                s@.skip(lend + ln as int),
            ) {
                None => None::<Seq<(nat, Seq<u8>)>>,
                Some(rest) => Some(seq![((tag / 8) as nat, data_s)] + rest),
            }));
            if spec_parse_fields(s@.skip(lend + ln as int)) is Some {
                let rest = spec_parse_fields(s@.skip(lend + ln as int)).unwrap();
                assert(done + (seq![((tag / 8) as nat, data_s)] + rest) =~= done.push(
                    ((tag / 8) as nat, data_s),
                ) + rest);
            }
        }
        let ghost m_prev = m@;
        proof {
            assert(data.deep_view() =~= data_s);
        }
        if num == 1 {
            m.public_key = data;
        } else if num == 2 {
            m.listen_addrs.push(data);
        } else if num == 3 {
            m.protocols.push(data);
        } else if num == 4 {
            m.observed_addr = data;
        } else if num == 5 {
            m.protocol_version = data;
        } else if num == 6 {
            m.agent_version = data;
        }
        proof {
            let f = ((tag / 8) as nat, data_s);
            assert(done.push(f).drop_last() =~= done);
            assert(spec_fold_fields(done.push(f)) == spec_apply_field(
                spec_fold_fields(done),
                f.0,
                f.1,
            ));
            if num == 2 {
                assert(m@.listen_addrs =~~= m_prev.listen_addrs.push(data_s));
            }
            if num == 3 {
                assert(m@.protocols =~~= m_prev.protocols.push(data_s));
            }
            done = done.push(f);
            assert(m@ == spec_fold_fields(done));
        }
        pos = lend + ln_us;
    }
    proof {
        assert(s@.skip(len as int) =~= Seq::<u8>::empty());
        assert(done + Seq::<(nat, Seq<u8>)>::empty() =~= done);
    }
    Some(m)
}

/// Reading one encoded field from the front takes exactly that occurrence.
pub proof fn lemma_parse_field_cons(num: nat, data: Seq<u8>, rest: Seq<u8>)
    requires
        1 <= num <= 15,
    ensures
        spec_parse_fields(spec_field(num, data) + rest) == (match spec_parse_fields(rest) {
            None => None::<Seq<(nat, Seq<u8>)>>,
            Some(fs) => Some(seq![(num, data)] + fs),
        }),
{
    let s = spec_field(num, data) + rest;
    let tagb = ((num * 8) + 2) as u8;
    assert(s.len() >= 1);
    assert(s[0] == tagb);
    assert(tagb < 128);
    assert(spec_varint_parse(s) == Some::<(nat, int)>((tagb as nat, 1)));
    assert((tagb as nat) % 8 == 2 && (tagb as nat) / 8 == num);
    let lenc = spec_varint(data.len());
    assert(s.skip(1) =~= lenc + data + rest);
    assert(lenc + data + rest =~= lenc + (data + rest));
    lemma_varint_parse_encode(data.len(), data + rest);
    assert(spec_varint_parse(s.skip(1)) == Some::<(nat, int)>((data.len(), lenc.len() as int)));
    let c = 1 + lenc.len() + data.len();
    assert(c <= s.len());
    assert(s.subrange(1 + lenc.len() as int, c as int) =~= data);
    assert(s.skip(c as int) =~= rest);
}

/// Folding one more occurrence applies it to the message folded so far.
pub proof fn lemma_fold_snoc(xs: Seq<(nat, Seq<u8>)>, f: (nat, Seq<u8>))
    ensures
        spec_fold_fields(xs.push(f)) == spec_apply_field(spec_fold_fields(xs), f.0, f.1),
{
    assert(xs.push(f).drop_last() =~= xs);
    assert(xs.push(f).last() == f);
}

/// Folding a run of listen-address occurrences appends them in order.
pub proof fn lemma_fold_listen(xs: Seq<(nat, Seq<u8>)>, items: Seq<Seq<u8>>)
    ensures
        (spec_fold_fields(xs + items.map_values(|d: Seq<u8>| (2nat, d))) == (RawMessageV {
            listen_addrs: spec_fold_fields(xs).listen_addrs + items,
            ..spec_fold_fields(xs)
        })),
    decreases items.len(),
{
    let f = |d: Seq<u8>| (2nat, d);
    if items.len() == 0 {
        assert(xs + items.map_values(f) =~= xs);
        assert(spec_fold_fields(xs).listen_addrs + items =~= spec_fold_fields(xs).listen_addrs);
    } else {
        let its = items.drop_last();
        let x = items.last();
        assert(items.map_values(f) =~= its.map_values(f).push((2nat, x)));
        assert(xs + items.map_values(f) =~= (xs + its.map_values(f)).push((2nat, x)));
        lemma_fold_listen(xs, its);
        lemma_fold_snoc(xs + its.map_values(f), (2nat, x));
        assert((spec_fold_fields(xs).listen_addrs + its).push(x) =~= spec_fold_fields(
            xs,
        ).listen_addrs + items);
    }
}

/// Folding a run of protocol occurrences appends them in order.
pub proof fn lemma_fold_protocols(xs: Seq<(nat, Seq<u8>)>, items: Seq<Seq<u8>>)
    ensures
        (spec_fold_fields(xs + items.map_values(|d: Seq<u8>| (3nat, d))) == (RawMessageV {
            protocols: spec_fold_fields(xs).protocols + items,
            ..spec_fold_fields(xs)
        })),
    decreases items.len(),
{
    let f = |d: Seq<u8>| (3nat, d);
    if items.len() == 0 {
        assert(xs + items.map_values(f) =~= xs);
        assert(spec_fold_fields(xs).protocols + items =~= spec_fold_fields(xs).protocols);
    } else {
        let its = items.drop_last();
        let x = items.last();
        assert(items.map_values(f) =~= its.map_values(f).push((3nat, x)));
        assert(xs + items.map_values(f) =~= (xs + its.map_values(f)).push((3nat, x)));
        lemma_fold_protocols(xs, its);
        lemma_fold_snoc(xs + its.map_values(f), (3nat, x));
        assert((spec_fold_fields(xs).protocols + its).push(x) =~= spec_fold_fields(
            xs,
        ).protocols + items);
    }
}

/// Reading a repeated field from the front takes one occurrence per item.
pub proof fn lemma_parse_rep_cons(num: nat, items: Seq<Seq<u8>>, rest: Seq<u8>)
    requires
        1 <= num <= 15,
    ensures
        spec_parse_fields(spec_rep_fields(num, items) + rest) == (match spec_parse_fields(rest) {
            None => None::<Seq<(nat, Seq<u8>)>>,
            Some(fs) => Some(items.map_values(|d: Seq<u8>| (num, d)) + fs),
        }),
    decreases items.len(),
{
    if items.len() == 0 {
        assert(spec_rep_fields(num, items) + rest =~= rest);
        if spec_parse_fields(rest) is Some {
            assert(items.map_values(|d: Seq<u8>| (num, d)) + spec_parse_fields(rest).unwrap()
                =~= spec_parse_fields(rest).unwrap());
        }
    } else {
        let tail = items.drop_first();
        assert(spec_rep_fields(num, items) + rest =~= spec_field(num, items[0]) + (
        spec_rep_fields(num, tail) + rest));
        lemma_parse_rep_cons(num, tail, rest);
        lemma_parse_field_cons(num, items[0], spec_rep_fields(num, tail) + rest);
        if spec_parse_fields(rest) is Some {
            let fs = spec_parse_fields(rest).unwrap();
            assert(seq![(num, items[0])] + (tail.map_values(|d: Seq<u8>| (num, d)) + fs)
                =~= items.map_values(|d: Seq<u8>| (num, d)) + fs);
        }
    }
}

} // verus!
