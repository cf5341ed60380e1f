//! A byte encoding of a game, for lossless handoff to transport
//! collaborators: encoding and reconstruction round-trip exactly.

use vstd::prelude::*;

use crate::bitmask::BitMask;
use crate::code::{decode_spec, lemma_decode_then_encode, shift_of, Code};
use crate::column::Column;
use crate::columns::ColumnSet;
use crate::criteria::{Criteria, CriteriaV};
use crate::criterias::Criterias;
use crate::rule::{Operator, Rule, RuleV};
use crate::rules::Rules;
use crate::setup::{Game, GameConfiguration, GameV};
use crate::term_format::string_push;
use crate::verifiers::{Verifier, VerifierV};

verus! {

/// A 32-bit length as four bytes, most significant first.
pub open spec fn enc_u32(v: int) -> Seq<u8> {
    decode_spec(v, 256, 4)
}

/// A column set as a count byte followed by its indices.
pub open spec fn enc_cols(cs: Seq<u8>) -> Seq<u8> {
    seq![cs.len() as u8] + cs
}

/// An operator as a tag byte and an operand byte (zero when unused).
pub open spec fn enc_op(op: Operator) -> Seq<u8> {
    match op {
        Operator::Pair => seq![0u8, 0u8],
        Operator::Impair => seq![1u8, 0u8],
        Operator::Lowest => seq![2u8, 0u8],
        Operator::Highest => seq![3u8, 0u8],
        Operator::SumBelow(x) => seq![4u8, x],
        Operator::SumEquals(x) => seq![5u8, x],
        Operator::SumAbove(x) => seq![6u8, x],
    }
}

/// A rule as a variant tag followed by its payload.
pub open spec fn enc_rule(rv: RuleV) -> Seq<u8> {
    match rv {
        RuleV::MatchesOp(op, cs) => seq![0u8] + enc_op(op) + enc_cols(cs),
        RuleV::XColumnsEquals(count, value) => seq![1u8, count, value],
    }
}

/// A list of rules, back to front.
pub open spec fn enc_rules_body(rs: Seq<RuleV>) -> Seq<u8>
    decreases rs.len(),
{
    if rs.len() == 0 {
        Seq::empty()
    } else {
        enc_rules_body(rs.drop_last()) + enc_rule(rs.last())
    }
}

/// The byte of a character's scalar value, for characters below 256.
pub open spec fn char_byte(c: char) -> u8 {
    ((c as u32) % 256) as u8
}

/// An ASCII string as one byte per character.
pub open spec fn enc_ascii(s: Seq<char>) -> Seq<u8> {
    Seq::new(s.len(), |i: int| char_byte(s[i]))
}

/// A mask as its length followed by one byte per bit.
pub open spec fn enc_mask(m: Seq<bool>) -> Seq<u8> {
    enc_u32(m.len() as int) + Seq::new(
        m.len(),
        |i: int|
            if m[i] {
                1u8
            } else {
                0u8
            },
    )
}

/// A criteria: its verifier's rule and mask, the description, and the
/// decoy rule list.
pub open spec fn enc_criteria(c: CriteriaV) -> Seq<u8> {
    enc_rule(c.verif.rule) + enc_mask(c.verif.mask) + enc_u32(c.description.len() as int)
        + enc_ascii(c.description) + enc_u32(c.rules.len() as int) + enc_rules_body(c.rules)
}

/// A list of criterias, back to front.
pub open spec fn enc_criterias_body(cs: Seq<CriteriaV>) -> Seq<u8>
    decreases cs.len(),
{
    if cs.len() == 0 {
        Seq::empty()
    } else {
        enc_criterias_body(cs.drop_last()) + enc_criteria(cs.last())
    }
}

/// A whole game: configuration, secret code, and ordered criterias.
pub open spec fn spec_encode_game(g: GameV) -> Seq<u8> {
    seq![g.configuration.column_count, g.configuration.base, g.configuration.min_difficulty]
        + seq![g.code.len() as u8] + g.code + enc_u32(g.criterias.len() as int)
        + enc_criterias_body(g.criterias)
}

/// A character below 128, encodable as one byte.
pub open spec fn is_ascii_char(c: char) -> bool {
    (c as u32) < 128
}

/// Counts fit their length fields, descriptions are ASCII, and column sets
/// fit a count byte: such a game encodes to bytes and decodes back.
pub open spec fn rule_encodable(rv: RuleV) -> bool {
    match rv {
        RuleV::MatchesOp(op, cs) => cs.len() <= 255,
        RuleV::XColumnsEquals(count, value) => true,
    }
}

pub open spec fn criteria_encodable(c: CriteriaV) -> bool {
    &&& rule_encodable(c.verif.rule)
    &&& c.verif.mask.len() < 0x1_0000_0000
    &&& c.description.len() < 0x1_0000_0000
    &&& (forall|i: int|
        0 <= i < c.description.len() ==> is_ascii_char(#[trigger] c.description[i]))
    &&& c.rules.len() < 0x1_0000_0000
    &&& (forall|i: int| 0 <= i < c.rules.len() ==> rule_encodable(#[trigger] c.rules[i]))
}

pub open spec fn game_encodable(g: GameV) -> bool {
    &&& g.code.len() <= 255
    &&& g.criterias.len() < 0x1_0000_0000
    &&& (forall|i: int|
        0 <= i < g.criterias.len() ==> criteria_encodable(#[trigger] g.criterias[i]))
}


/// Reads one byte.
pub open spec fn dec_u8(b: Seq<u8>, pos: int) -> Option<(u8, int)> {
    if 0 <= pos && pos + 1 <= b.len() {
        Some((b[pos], pos + 1))
    } else {
        None
    }
}

/// Reads a 32-bit length.
pub open spec fn dec_u32(b: Seq<u8>, pos: int) -> Option<(int, int)> {
    if 0 <= pos && pos + 4 <= b.len() {
        Some((shift_of(b.subrange(pos, pos + 4), 256), pos + 4))
    } else {
        None
    }
}

/// Reads a run of raw bytes.
pub open spec fn dec_bytes(b: Seq<u8>, pos: int, count: int) -> Option<(Seq<u8>, int)> {
    if 0 <= pos && 0 <= count && pos + count <= b.len() {
        Some((b.subrange(pos, pos + count), pos + count))
    } else {
        None
    }
}

/// Reads an operator.
pub open spec fn dec_op(b: Seq<u8>, pos: int) -> Option<(Operator, int)> {
    match dec_u8(b, pos) {
        None => None,
        Some((tag, p1)) => match dec_u8(b, p1) {
            None => None,
            Some((x, p2)) => if tag == 0 {
                Some((Operator::Pair, p2))
            } else if tag == 1 {
                Some((Operator::Impair, p2))
            } else if tag == 2 {
                Some((Operator::Lowest, p2))
            } else if tag == 3 {
                Some((Operator::Highest, p2))
            } else if tag == 4 {
                Some((Operator::SumBelow(x), p2))
            } else if tag == 5 {
                Some((Operator::SumEquals(x), p2))
            } else if tag == 6 {
                Some((Operator::SumAbove(x), p2))
            } else {
                None
            },
        },
    }
}

/// Reads a rule.
pub open spec fn dec_rule(b: Seq<u8>, pos: int) -> Option<(RuleV, int)> {
    match dec_u8(b, pos) {
        None => None,
        Some((tag, p1)) => if tag == 0 {
            match dec_op(b, p1) {
                None => None,
                Some((op, p2)) => match dec_u8(b, p2) {
                    None => None,
                    Some((cnt, p3)) => match dec_bytes(b, p3, cnt as int) {
                        None => None,
                        Some((cs, p4)) => Some((RuleV::MatchesOp(op, cs), p4)),
                    },
                },
            }
        } else if tag == 1 {
            match dec_u8(b, p1) {
                None => None,
                Some((count, p2)) => match dec_u8(b, p2) {
                    None => None,
                    Some((value, p3)) => Some((RuleV::XColumnsEquals(count, value), p3)),
                },
            }
        } else {
            None
        },
    }
}

/// Reads `count` rules.
pub open spec fn dec_rules(b: Seq<u8>, pos: int, count: nat) -> Option<(Seq<RuleV>, int)>
    decreases count,
{
    if count == 0 {
        Some((Seq::empty(), pos))
    } else {
        match dec_rules(b, pos, (count - 1) as nat) {
            None => None,
            Some((rs, p)) => match dec_rule(b, p) {
                None => None,
                Some((r, p2)) => Some((rs.push(r), p2)),
            },
        }
    }
}

/// Reads `count` characters stored as single ASCII bytes; any byte at or
/// above 128 is malformed.
pub open spec fn dec_ascii(b: Seq<u8>, pos: int, count: int) -> Option<(Seq<char>, int)> {
    if 0 <= pos && 0 <= count && pos + count <= b.len() && (forall|i: int|
        0 <= i < count ==> #[trigger] b[pos + i] < 128) {
        Some((Seq::new(count as nat, |i: int| (b[pos + i] as u32) as char), pos + count))
    } else {
        None
    }
}

/// Reads a mask: its length, then one byte per bit.
pub open spec fn dec_mask(b: Seq<u8>, pos: int) -> Option<(Seq<bool>, int)> {
    match dec_u32(b, pos) {
        None => None,
        Some((len, p1)) => if p1 + len <= b.len() {
            Some((Seq::new(len as nat, |i: int| b[p1 + i] == 1), p1 + len))
        } else {
            None
        },
    }
}

/// Reads a criteria.
pub open spec fn dec_criteria(b: Seq<u8>, pos: int) -> Option<(CriteriaV, int)> {
    match dec_rule(b, pos) {
        None => None,
        Some((rule, p1)) => match dec_mask(b, p1) {
            None => None,
            Some((mask, p2)) => match dec_u32(b, p2) {
                None => None,
                Some((dlen, p3)) => match dec_ascii(b, p3, dlen) {
                    None => None,
                    Some((description, p4)) => match dec_u32(b, p4) {
                        None => None,
                        Some((rcount, p5)) => if rcount >= 0 {
                            match dec_rules(b, p5, rcount as nat) {
                                None => None,
                                Some((rules, p6)) => Some(
                                    (
                                        CriteriaV {
                                            verif: VerifierV { rule, mask },
                                            description,
                                            rules,
                                        },
                                        p6,
                                    ),
                                ),
                            }
                        } else {
                            None
                        },
                    },
                },
            },
        },
    }
}

/// Reads `count` criterias.
pub open spec fn dec_criterias(b: Seq<u8>, pos: int, count: nat) -> Option<(Seq<CriteriaV>, int)>
    decreases count,
{
    if count == 0 {
        Some((Seq::empty(), pos))
    } else {
        match dec_criterias(b, pos, (count - 1) as nat) {
            None => None,
            Some((cs, p)) => match dec_criteria(b, p) {
                None => None,
                Some((c, p2)) => Some((cs.push(c), p2)),
            },
        }
    }
}

/// Reads back a whole game; `None` on any malformed or trailing input.
pub open spec fn spec_decode_game(b: Seq<u8>) -> Option<GameV> {
    if b.len() < 4 {
        None
    } else {
        let gc = GameConfiguration { column_count: b[0], base: b[1], min_difficulty: b[2] };
        match dec_bytes(b, 4, b[3] as int) {
            None => None,
            Some((code, p1)) => match dec_u32(b, p1) {
                None => None,
                Some((ccount, p2)) => if ccount >= 0 {
                    match dec_criterias(b, p2, ccount as nat) {
                        None => None,
                        Some((criterias, p3)) => if p3 == b.len() {
                            Some(GameV { configuration: gc, criterias, code })
                        } else {
                            None
                        },
                    }
                } else {
                    None
                },
            },
        }
    }
}

/// One byte of a written piece, read at its absolute position.
proof fn lemma_bytes_at(b: Seq<u8>, pos: int, e: Seq<u8>, k: int)
    requires
        0 <= pos,
        pos + e.len() <= b.len(),
        b.subrange(pos, pos + e.len()) == e,
        0 <= k < e.len(),
    ensures
        b[pos + k] == e[k],
{
    assert(b.subrange(pos, pos + e.len())[k] == e[k]);
}

/// A written piece contains each of its sub-pieces at its offset.
proof fn lemma_sub_piece(b: Seq<u8>, pos: int, e: Seq<u8>, off: int, piece: Seq<u8>)
    requires
        0 <= pos,
        pos + e.len() <= b.len(),
        b.subrange(pos, pos + e.len()) == e,
        0 <= off,
        off + piece.len() <= e.len(),
        e.subrange(off, off + piece.len()) == piece,
    ensures
        b.subrange(pos + off, pos + off + piece.len()) == piece,
{
    assert forall|k: int|
        0 <= k < piece.len() implies b.subrange(
        pos + off,
        pos + off + piece.len(),
    )[k] == piece[k] by {
        assert(b.subrange(pos, pos + e.len())[off + k] == e[off + k]);
        assert(e.subrange(off, off + piece.len())[k] == piece[k]);
    }
    assert(b.subrange(pos + off, pos + off + piece.len()) =~= piece);
}

/// A length written by `enc_u32` reads back unchanged.
proof fn lemma_dec_u32(b: Seq<u8>, pos: int, v: int)
    requires
        0 <= v < 0x1_0000_0000,
        0 <= pos,
        pos + 4 <= b.len(),
        b.subrange(pos, pos + 4) == enc_u32(v),
    ensures
        dec_u32(b, pos) == Some((v, pos + 4)),
{
    assert(vstd::arithmetic::power::pow(256, 4) == 0x1_0000_0000) by {
        vstd::arithmetic::power::lemma_pow0(256);
        crate::code::lemma_pow_unfold(256, 1);
        crate::code::lemma_pow_unfold(256, 2);
        crate::code::lemma_pow_unfold(256, 3);
        crate::code::lemma_pow_unfold(256, 4);
    }
    lemma_decode_then_encode(v, 256, 4);
}

/// An operator written by `enc_op` reads back unchanged.
proof fn lemma_dec_op(b: Seq<u8>, pos: int, op: Operator)
    requires
        0 <= pos,
        pos + 2 <= b.len(),
        b.subrange(pos, pos + 2) == enc_op(op),
    ensures
        dec_op(b, pos) == Some((op, pos + 2)),
{
    lemma_bytes_at(b, pos, enc_op(op), 0);
    lemma_bytes_at(b, pos, enc_op(op), 1);
}

/// A rule written by `enc_rule` reads back unchanged.
proof fn lemma_dec_rule(b: Seq<u8>, pos: int, rv: RuleV)
    requires
        rule_encodable(rv),
        0 <= pos,
        pos + enc_rule(rv).len() <= b.len(),
        b.subrange(pos, pos + enc_rule(rv).len()) == enc_rule(rv),
    ensures
        dec_rule(b, pos) == Some((rv, pos + enc_rule(rv).len())),
{
    let e = enc_rule(rv);
    match rv {
        RuleV::MatchesOp(op, cs) => {
            assert(e == seq![0u8] + enc_op(op) + enc_cols(cs));
            lemma_bytes_at(b, pos, e, 0);
            assert(b[pos] == 0u8);
            assert(e.subrange(1, 3) =~= enc_op(op));
            lemma_sub_piece(b, pos, e, 1, enc_op(op));
            lemma_dec_op(b, pos + 1, op);
            lemma_bytes_at(b, pos, e, 3);
            assert(e[3] == cs.len() as u8);
            assert(cs.len() as u8 as int == cs.len());
            assert(e.subrange(4, 4 + cs.len() as int) =~= cs);
            lemma_sub_piece(b, pos, e, 4, cs);
        },
        RuleV::XColumnsEquals(count, value) => {
            lemma_bytes_at(b, pos, e, 0);
            lemma_bytes_at(b, pos, e, 1);
            lemma_bytes_at(b, pos, e, 2);
            assert(e[0] == 1u8 && e[1] == count && e[2] == value);
        },
    }
}

/// A rule list written by `enc_rules_body` reads back unchanged.
proof fn lemma_dec_rules(b: Seq<u8>, pos: int, rs: Seq<RuleV>)
    requires
        forall|i: int| 0 <= i < rs.len() ==> rule_encodable(#[trigger] rs[i]),
        0 <= pos,
        pos + enc_rules_body(rs).len() <= b.len(),
        b.subrange(pos, pos + enc_rules_body(rs).len()) == enc_rules_body(rs),
    ensures
        dec_rules(b, pos, rs.len()) == Some((rs, pos + enc_rules_body(rs).len())),
    decreases rs.len(),
{
    if rs.len() == 0 {
        assert(enc_rules_body(rs).len() == 0);
    } else {
        let pre = enc_rules_body(rs.drop_last());
        let last = enc_rule(rs.last());
        let e = enc_rules_body(rs);
        assert(e == pre + last);
        assert(forall|i: int|
            0 <= i < rs.drop_last().len() ==> rule_encodable(#[trigger] rs.drop_last()[i]));
        assert(e.subrange(0, pre.len() as int) =~= pre);
        lemma_sub_piece(b, pos, e, 0, pre);
        lemma_dec_rules(b, pos, rs.drop_last());
        assert(e.subrange(pre.len() as int, pre.len() as int + last.len() as int) =~= last);
        lemma_sub_piece(b, pos, e, pre.len() as int, last);
        assert(rule_encodable(rs.last()));
        lemma_dec_rule(b, pos + pre.len(), rs.last());
        assert(rs.drop_last().push(rs.last()) =~= rs);
    }
}

/// An ASCII string written by `enc_ascii` reads back unchanged.
proof fn lemma_dec_ascii(b: Seq<u8>, pos: int, s: Seq<char>)
    requires
        forall|i: int| 0 <= i < s.len() ==> is_ascii_char(#[trigger] s[i]),
        0 <= pos,
        pos + s.len() <= b.len(),
        b.subrange(pos, pos + s.len()) == enc_ascii(s),
    ensures
        dec_ascii(b, pos, s.len() as int) == Some((s, pos + s.len())),
{
    let e = enc_ascii(s);
    assert forall|i: int| 0 <= i < s.len() implies #[trigger] b[pos + i] < 128 by {
        lemma_bytes_at(b, pos, e, i);
        assert(e[i] == char_byte(s[i]));
        assert((s[i] as u32) < 128);
    }
    let d = Seq::new(s.len(), |i: int| (b[pos + i] as u32) as char);
    assert forall|i: int| 0 <= i < s.len() implies d[i] == s[i] by {
        lemma_bytes_at(b, pos, e, i);
        assert(e[i] == char_byte(s[i]));
        let c = s[i];
        assert((c as u32) < 128);
        assert(b[pos + i] as u32 == c as u32);
        vstd::utf8::char_u32_cast(c, c as u32);
        assert((b[pos + i] as u32) as char == c);
    }
    assert(d =~= s);
}

/// A mask written by `enc_mask` reads back unchanged.
proof fn lemma_dec_mask(b: Seq<u8>, pos: int, m: Seq<bool>)
    requires
        m.len() < 0x1_0000_0000,
        0 <= pos,
        pos + enc_mask(m).len() <= b.len(),
        b.subrange(pos, pos + enc_mask(m).len()) == enc_mask(m),
    ensures
        dec_mask(b, pos) == Some((m, pos + enc_mask(m).len())),
{
    let e = enc_mask(m);
    let bits = Seq::new(
        m.len(),
        |i: int|
            if m[i] {
                1u8
            } else {
                0u8
            },
    );
    assert(e == enc_u32(m.len() as int) + bits);
    assert(e.subrange(0, 4) =~= enc_u32(m.len() as int));
    lemma_sub_piece(b, pos, e, 0, enc_u32(m.len() as int));
    lemma_dec_u32(b, pos, m.len() as int);
    let d = Seq::new(m.len(), |i: int| b[pos + 4 + i] == 1);
    assert forall|i: int| 0 <= i < m.len() implies d[i] == m[i] by {
        lemma_bytes_at(b, pos, e, 4 + i);
        assert(e[4 + i] == bits[i]);
    }
    assert(d =~= m);
}

/// A criteria written by `enc_criteria` reads back unchanged.
proof fn lemma_dec_criteria(b: Seq<u8>, pos: int, c: CriteriaV)
    requires
        criteria_encodable(c),
        0 <= pos,
        pos + enc_criteria(c).len() <= b.len(),
        b.subrange(pos, pos + enc_criteria(c).len()) == enc_criteria(c),
    ensures
        dec_criteria(b, pos) == Some((c, pos + enc_criteria(c).len())),
{
    let e = enc_criteria(c);
    let e1 = enc_rule(c.verif.rule);
    let e2 = enc_mask(c.verif.mask);
    let e3 = enc_u32(c.description.len() as int);
    let e4 = enc_ascii(c.description);
    let e5 = enc_u32(c.rules.len() as int);
    let e6 = enc_rules_body(c.rules);
    assert(e == e1 + e2 + e3 + e4 + e5 + e6);
    let o1 = e1.len() as int;
    let o2 = o1 + e2.len();
    let o3 = o2 + e3.len();
    let o4 = o3 + e4.len();
    let o5 = o4 + e5.len();
    assert(e.subrange(0, o1) =~= e1);
    lemma_sub_piece(b, pos, e, 0, e1);
    lemma_dec_rule(b, pos, c.verif.rule);
    assert(e.subrange(o1, o2) =~= e2);
    lemma_sub_piece(b, pos, e, o1, e2);
    lemma_dec_mask(b, pos + o1, c.verif.mask);
    assert(e.subrange(o2, o3) =~= e3);
    lemma_sub_piece(b, pos, e, o2, e3);
    lemma_dec_u32(b, pos + o2, c.description.len() as int);
    assert(e.subrange(o3, o4) =~= e4);
    lemma_sub_piece(b, pos, e, o3, e4);
    lemma_dec_ascii(b, pos + o3, c.description);
    assert(e.subrange(o4, o5) =~= e5);
    lemma_sub_piece(b, pos, e, o4, e5);
    lemma_dec_u32(b, pos + o4, c.rules.len() as int);
    assert(e.subrange(o5, o5 + e6.len()) =~= e6);
    lemma_sub_piece(b, pos, e, o5, e6);
    lemma_dec_rules(b, pos + o5, c.rules);
}

/// A criteria list written by `enc_criterias_body` reads back unchanged.
proof fn lemma_dec_criterias(b: Seq<u8>, pos: int, cs: Seq<CriteriaV>)
    requires
        forall|i: int| 0 <= i < cs.len() ==> criteria_encodable(#[trigger] cs[i]),
        0 <= pos,
        pos + enc_criterias_body(cs).len() <= b.len(),
        b.subrange(pos, pos + enc_criterias_body(cs).len()) == enc_criterias_body(cs),
    ensures
        dec_criterias(b, pos, cs.len()) == Some((cs, pos + enc_criterias_body(cs).len())),
    decreases cs.len(),
{
    if cs.len() == 0 {
        assert(enc_criterias_body(cs).len() == 0);
    } else {
        let pre = enc_criterias_body(cs.drop_last());
        let last = enc_criteria(cs.last());
        let e = enc_criterias_body(cs);
        assert(e == pre + last);
        assert(forall|i: int|
            0 <= i < cs.drop_last().len() ==> criteria_encodable(#[trigger] cs.drop_last()[i]));
        assert(e.subrange(0, pre.len() as int) =~= pre);
        lemma_sub_piece(b, pos, e, 0, pre);
        lemma_dec_criterias(b, pos, cs.drop_last());
        assert(e.subrange(pre.len() as int, pre.len() as int + last.len() as int) =~= last);
        lemma_sub_piece(b, pos, e, pre.len() as int, last);
        assert(criteria_encodable(cs.last()));
        lemma_dec_criteria(b, pos + pre.len(), cs.last());
        assert(cs.drop_last().push(cs.last()) =~= cs);
    }
}

/// Law: an encodable game decodes back from its encoding unchanged.
pub proof fn lemma_game_round_trip(g: GameV)
    requires
        game_encodable(g),
    ensures
        spec_decode_game(spec_encode_game(g)) == Some(g),
{
    let b = spec_encode_game(g);
    let e0 = seq![
        g.configuration.column_count,
        g.configuration.base,
        g.configuration.min_difficulty,
    ];
    let e1 = seq![g.code.len() as u8];
    let e2 = g.code;
    let e3 = enc_u32(g.criterias.len() as int);
    let e4 = enc_criterias_body(g.criterias);
    assert(b == e0 + e1 + e2 + e3 + e4);
    assert(b.subrange(0, b.len() as int) =~= b);
    assert(b.len() >= 4);
    assert(b[0] == g.configuration.column_count);
    assert(b[1] == g.configuration.base);
    assert(b[2] == g.configuration.min_difficulty);
    assert(b[3] == g.code.len() as u8);
    assert(g.code.len() as u8 as int == g.code.len());
    let p1 = 4 + g.code.len() as int;
    let p2 = p1 + 4;
    let p3 = p2 + e4.len();
    assert(b.subrange(4, p1) =~= g.code);
    assert(b.subrange(p1, p2) =~= e3);
    lemma_dec_u32(b, p1, g.criterias.len() as int);
    assert(b.subrange(p2, p3) =~= e4);
    lemma_dec_criterias(b, p2, g.criterias);
    assert(p3 == b.len());
}


/// Relies on std's `char::from_u32`: for a value below 128 it returns the
/// character with that scalar value.
#[verifier::external_body]
fn char_from_ascii(b: u8) -> (r: char)
    requires
        b < 128,
    ensures
        r == (b as u32) as char,
{
    match char::from_u32(b as u32) {
        Some(c) => c,
        None => ' ',
    }
}

/// Appends a 32-bit length.
fn enc_u32_into(out: &mut Vec<u8>, v: u32)
    ensures
        final (out)@ == old(out)@ + enc_u32(v as int),
{
    let ghost before = out@;
    out.push(((v / 16777216) % 256) as u8);
    out.push(((v / 65536) % 256) as u8);
    out.push(((v / 256) % 256) as u8);
    out.push((v % 256) as u8);
    proof {
        assert(out@ =~= before + enc_u32(v as int)) by {
            vstd::arithmetic::power::lemma_pow0(256);
            crate::code::lemma_pow_unfold(256, 1);
            crate::code::lemma_pow_unfold(256, 2);
            crate::code::lemma_pow_unfold(256, 3);
        }
    }
}

/// Appends a rule; reports whether the rule fits the encoding.
fn enc_rule_into(out: &mut Vec<u8>, rule: &Rule) -> (ok: bool)
    ensures
        ok == rule_encodable(rule@),
        ok ==> final (out)@ == old(out)@ + enc_rule(rule@),
{
    let ghost before = out@;
    match rule {
        Rule::MatchesOp(op, columns) => {
            if columns.len() > 255 {
                return false;
            }
            out.push(0u8);
            match op {
                Operator::Pair => {
                    out.push(0u8);
                    out.push(0u8);
                },
                Operator::Impair => {
                    out.push(1u8);
                    out.push(0u8);
                },
                Operator::Lowest => {
                    out.push(2u8);
                    out.push(0u8);
                },
                Operator::Highest => {
                    out.push(3u8);
                    out.push(0u8);
                },
                Operator::SumBelow(x) => {
                    out.push(4u8);
                    out.push(*x);
                },
                Operator::SumEquals(x) => {
                    out.push(5u8);
                    out.push(*x);
                },
                Operator::SumAbove(x) => {
                    out.push(6u8);
                    out.push(*x);
                },
            }
            out.push(columns.len() as u8);
            let mut i: usize = 0;
            while i < columns.len()
                invariant
                    i <= columns@.len(),
                    out@ =~= before + seq![0u8] + enc_op(rule@->MatchesOp_0) + seq![
                        columns@.len() as u8,
                    ] + columns@.take(i as int),
                    rule@ == RuleV::MatchesOp(rule@->MatchesOp_0, columns@),
                decreases columns@.len() - i,
            {
                let ghost mid = out@;
                out.push(columns.get(i).index());
                proof {
                    assert(columns@.take(i + 1) =~= columns@.take(i as int).push(
                        columns@[i as int],
                    ));
                    assert(out@ =~= mid.push(columns@[i as int]));
                }
                i = i + 1;
            }
            proof {
                assert(columns@.take(columns@.len() as int) =~= columns@);
                assert(out@ =~= before + enc_rule(rule@));
            }
            true
        },
        Rule::XColumnsEquals(count, value) => {
            out.push(1u8);
            out.push(*count);
            out.push(*value);
            proof {
                assert(out@ =~= before + enc_rule(rule@));
            }
            true
        },
    }
}

/// Appends a mask; reports whether its length fits the encoding.
fn enc_mask_into(out: &mut Vec<u8>, mask: &BitMask) -> (ok: bool)
    ensures
        ok == (mask@.len() < 0x1_0000_0000),
        ok ==> final (out)@ == old(out)@ + enc_mask(mask@),
{
    let ghost before = out@;
    let len = mask.len();
    if len as u64 >= 0x1_0000_0000u64 {
        return false;
    }
    enc_u32_into(out, len as u32);
    let mut i: usize = 0;
    while i < len
        invariant
            i <= mask@.len(),
            len == mask@.len(),
            out@ =~= before + enc_u32(mask@.len() as int) + Seq::new(
                i as nat,
                |k: int|
                    if mask@[k] {
                        1u8
                    } else {
                        0u8
                    },
            ),
        decreases mask@.len() - i,
    {
        let ghost mid = out@;
        if mask.bit(i) {
            out.push(1u8);
        } else {
            out.push(0u8);
        }
        proof {
            assert(out@ =~= mid.push(
                if mask@[i as int] {
                    1u8
                } else {
                    0u8
                },
            ));
            assert(Seq::new(
                (i + 1) as nat,
                |k: int|
                    if mask@[k] {
                        1u8
                    } else {
                        0u8
                    },
            ) =~= Seq::new(
                i as nat,
                |k: int|
                    if mask@[k] {
                        1u8
                    } else {
                        0u8
                    },
            ).push(
                if mask@[i as int] {
                    1u8
                } else {
                    0u8
                },
            ));
        }
        i = i + 1;
    }
    proof {
        assert(out@ =~= before + enc_mask(mask@));
    }
    true
}

/// Appends a string; reports whether it is ASCII and fits the encoding.
fn enc_string_into(out: &mut Vec<u8>, s: &String) -> (ok: bool)
    ensures
        ok == (s@.len() < 0x1_0000_0000 && (forall|i: int|
            0 <= i < s@.len() ==> is_ascii_char(#[trigger] s@[i]))),
        ok ==> final (out)@ == old(out)@ + enc_u32(s@.len() as int) + enc_ascii(s@),
{
    let ghost before = out@;
    let len = s.as_str().unicode_len();
    if len as u64 >= 0x1_0000_0000u64 {
        return false;
    }
    let mut i: usize = 0;
    while i < len
        invariant
            i <= s@.len(),
            len == s@.len(),
            forall|k: int| 0 <= k < i ==> is_ascii_char(#[trigger] s@[k]),
        decreases s@.len() - i,
    {
        let c = s.as_str().get_char(i);
        if (c as u32) >= 128 {
            assert(!is_ascii_char(s@[i as int]));
            return false;
        }
        i = i + 1;
    }
    enc_u32_into(out, len as u32);
    let mut j: usize = 0;
    while j < len
        invariant
            j <= s@.len(),
            len == s@.len(),
            forall|k: int| 0 <= k < s@.len() ==> is_ascii_char(#[trigger] s@[k]),
            out@ =~= before + enc_u32(s@.len() as int) + Seq::new(
                j as nat,
                |k: int| char_byte(s@[k]),
            ),
        decreases s@.len() - j,
    {
        let ghost mid = out@;
        let c = s.as_str().get_char(j);
        assert(is_ascii_char(s@[j as int]));
        let b = ((c as u32) % 256) as u8;
        out.push(b);
        proof {
            assert(b == char_byte(s@[j as int]));
            assert(out@ =~= mid.push(char_byte(s@[j as int])));
            assert(Seq::new((j + 1) as nat, |k: int| char_byte(s@[k])) =~= Seq::new(
                j as nat,
                |k: int| char_byte(s@[k]),
            ).push(char_byte(s@[j as int])));
        }
        j = j + 1;
    }
    proof {
        assert(out@ =~= before + enc_u32(s@.len() as int) + enc_ascii(s@));
    }
    true
}

/// Appends a criteria; reports whether it fits the encoding.
fn enc_criteria_into(out: &mut Vec<u8>, c: &Criteria) -> (ok: bool)
    ensures
        ok == criteria_encodable(c@),
        ok ==> final (out)@ == old(out)@ + enc_criteria(c@),
{
    let ghost before = out@;
    if !enc_rule_into(out, &c.verif.rule) {
        return false;
    }
    if !enc_mask_into(out, &c.verif.mask) {
        return false;
    }
    if !enc_string_into(out, &c.description) {
        return false;
    }
    if c.rules.0.len() as u64 >= 0x1_0000_0000u64 {
        return false;
    }
    enc_u32_into(out, c.rules.0.len() as u32);
    let ghost mid = out@;
    let mut i: usize = 0;
    while i < c.rules.0.len()
        invariant
            i <= c.rules@.len(),
            mid == before + enc_rule(c@.verif.rule) + enc_mask(c@.verif.mask) + enc_u32(
                c@.description.len() as int,
            ) + enc_ascii(c@.description) + enc_u32(c@.rules.len() as int),
            out@ =~= mid + enc_rules_body(c.rules@.take(i as int)),
            forall|k: int| 0 <= k < i ==> rule_encodable(#[trigger] c.rules@[k]),
        decreases c.rules@.len() - i,
    {
        let ghost cur = out@;
        if !enc_rule_into(out, c.rules.get(i)) {
            assert(!rule_encodable(c.rules@[i as int]));
            return false;
        }
        proof {
            let pre = c.rules@.take(i as int);
            let nxt = c.rules@.take(i + 1);
            assert(nxt.drop_last() =~= pre);
            assert(nxt.last() == c.rules@[i as int]);
            assert(enc_rules_body(nxt) == enc_rules_body(pre) + enc_rule(c.rules@[i as int]));
            assert(out@ =~= cur + enc_rule(c.rules@[i as int]));
            assert(out@ =~= mid + enc_rules_body(nxt));
        }
        i = i + 1;
    }
    proof {
        assert(c.rules@.take(c.rules@.len() as int) =~= c.rules@);
        assert(out@ =~= before + enc_criteria(c@));
    }
    true
}

/// The game as bytes, when every piece fits the encoding; `None` exactly
/// when it does not.
pub fn encode_game(g: &Game) -> (r: Option<Vec<u8>>)
    ensures
        (r matches Some(bytes)) == game_encodable(g@),
        r matches Some(bytes) ==> bytes@ == spec_encode_game(g@),
{
    let mut out: Vec<u8> = Vec::new();
    out.push(g.configuration.column_count);
    out.push(g.configuration.base);
    out.push(g.configuration.min_difficulty);
    if g.code.0.len() > 255 {
        return None;
    }
    out.push(g.code.0.len() as u8);
    let mut i: usize = 0;
    while i < g.code.0.len()
        invariant
            i <= g.code@.len(),
            g.code@.len() <= 255,
            out@ =~= seq![
                g.configuration.column_count,
                g.configuration.base,
                g.configuration.min_difficulty,
                g.code@.len() as u8,
            ] + g.code@.take(i as int),
        decreases g.code@.len() - i,
    {
        let ghost mid = out@;
        out.push(g.code.0[i]);
        proof {
            assert(g.code@.take(i + 1) =~= g.code@.take(i as int).push(g.code@[i as int]));
            assert(out@ =~= mid.push(g.code@[i as int]));
        }
        i = i + 1;
    }
    proof {
        assert(g.code@.take(g.code@.len() as int) =~= g.code@);
    }
    if g.criterias.0.len() as u64 >= 0x1_0000_0000u64 {
        return None;
    }
    enc_u32_into(&mut out, g.criterias.0.len() as u32);
    let ghost head = out@;
    let mut j: usize = 0;
    while j < g.criterias.0.len()
        invariant
            j <= g.criterias@.len(),
            head == seq![
                g.configuration.column_count,
                g.configuration.base,
                g.configuration.min_difficulty,
            ] + seq![g.code@.len() as u8] + g.code@ + enc_u32(g.criterias@.len() as int),
            out@ =~= head + enc_criterias_body(g.criterias@.take(j as int)),
            forall|k: int| 0 <= k < j ==> criteria_encodable(#[trigger] g.criterias@[k]),
        decreases g.criterias@.len() - j,
    {
        let ghost cur = out@;
        if !enc_criteria_into(&mut out, g.criterias.get(j)) {
            assert(!criteria_encodable(g.criterias@[j as int]));
            return None;
        }
        proof {
            let pre = g.criterias@.take(j as int);
            let nxt = g.criterias@.take(j + 1);
            assert(nxt.drop_last() =~= pre);
            assert(nxt.last() == g.criterias@[j as int]);
            assert(enc_criterias_body(nxt) == enc_criterias_body(pre) + enc_criteria(
                g.criterias@[j as int],
            ));
            assert(out@ =~= cur + enc_criteria(g.criterias@[j as int]));
            assert(out@ =~= head + enc_criterias_body(nxt));
        }
        j = j + 1;
    }
    proof {
        assert(g.criterias@.take(g.criterias@.len() as int) =~= g.criterias@);
        assert(out@ =~= spec_encode_game(g@));
    }
    Some(out)
}

/// Reads one byte, as `dec_u8`.
fn dexec_u8(bytes: &Vec<u8>, pos: usize) -> (r: Option<(u8, usize)>)
    ensures
        (match dec_u8(bytes@, pos as int) {
            Some((v, np)) => r matches Some(p) && p.0 == v && p.1 == np,
            None => r is None,
        }),
{
    if pos < bytes.len() {
        Some((bytes[pos], pos + 1))
    } else {
        None
    }
}

/// Reads a 32-bit length, as `dec_u32`.
fn dexec_u32(bytes: &Vec<u8>, pos: usize) -> (r: Option<(u32, usize)>)
    ensures
        (match dec_u32(bytes@, pos as int) {
            Some((v, np)) => r matches Some(p) && p.0 == v && p.1 == np,
            None => r is None,
        }),
{
    if pos < bytes.len() && bytes.len() - pos >= 4 {
        let b0 = bytes[pos] as u32;
        let b1 = bytes[pos + 1] as u32;
        let b2 = bytes[pos + 2] as u32;
        let b3 = bytes[pos + 3] as u32;
        let v = ((b0 * 256 + b1) * 256 + b2) * 256 + b3;
        proof {
            let s = bytes@.subrange(pos as int, pos + 4);
            let s3 = s.drop_last();
            let s2 = s3.drop_last();
            let s1 = s2.drop_last();
            assert(s1.drop_last().len() == 0);
            assert(shift_of(s1.drop_last(), 256) == 0);
            assert(s1.last() == s[0] && s2.last() == s[1] && s3.last() == s[2] && s.last()
                == s[3]);
            assert(shift_of(s1, 256) == s[0]);
            assert(shift_of(s2, 256) == s[0] * 256 + s[1]);
            assert(shift_of(s3, 256) == (s[0] * 256 + s[1]) * 256 + s[2]);
            assert(shift_of(s, 256) == ((s[0] * 256 + s[1]) * 256 + s[2]) * 256 + s[3]);
            assert(s[0] == bytes@[pos as int] && s[1] == bytes@[pos + 1] && s[2] == bytes@[pos
                + 2] && s[3] == bytes@[pos + 3]);
        }
        Some((v, pos + 4))
    } else {
        if pos >= bytes.len() {
            assert(pos + 4 > bytes@.len());
        }
        None
    }
}

/// Reads an operator, as `dec_op`.
fn dexec_op(bytes: &Vec<u8>, pos: usize) -> (r: Option<(Operator, usize)>)
    ensures
        (match dec_op(bytes@, pos as int) {
            Some((op, np)) => r matches Some(p) && p.0 == op && p.1 == np,
            None => r is None,
        }),
{
    let (tag, p1) = match dexec_u8(bytes, pos) {
        Some(x) => x,
        None => {
            return None;
        },
    };
    let (x, p2) = match dexec_u8(bytes, p1) {
        Some(x) => x,
        None => {
            return None;
        },
    };
    if tag == 0 {
        Some((Operator::Pair, p2))
    } else if tag == 1 {
        Some((Operator::Impair, p2))
    } else if tag == 2 {
        Some((Operator::Lowest, p2))
    } else if tag == 3 {
        Some((Operator::Highest, p2))
    } else if tag == 4 {
        Some((Operator::SumBelow(x), p2))
    } else if tag == 5 {
        Some((Operator::SumEquals(x), p2))
    } else if tag == 6 {
        Some((Operator::SumAbove(x), p2))
    } else {
        None
    }
}

/// Reads a rule, as `dec_rule`.
fn dexec_rule(bytes: &Vec<u8>, pos: usize) -> (r: Option<(Rule, usize)>)
    ensures
        (match dec_rule(bytes@, pos as int) {
            Some((rv, np)) => r matches Some(p) && p.0@ == rv && p.1 == np,
            None => r is None,
        }),
{
    let (tag, p1) = match dexec_u8(bytes, pos) {
        Some(x) => x,
        None => {
            return None;
        },
    };
    if tag == 0 {
        let (op, p2) = match dexec_op(bytes, p1) {
            Some(x) => x,
            None => {
                return None;
            },
        };
        let (cnt, p3) = match dexec_u8(bytes, p2) {
            Some(x) => x,
            None => {
                return None;
            },
        };
        if p3 <= bytes.len() && bytes.len() - p3 >= cnt as usize {
            let mut cols: Vec<Column> = Vec::new();
            let mut i: usize = 0;
            while i < cnt as usize
                invariant
                    i <= cnt as int,
                    p3 + cnt as int <= bytes@.len(),
                    bytes@.len() <= usize::MAX,
                    cols@.len() == i,
                    forall|k: int| 0 <= k < i ==> cols@[k].0 == bytes@[p3 + k],
                decreases cnt as int - i,
            {
                cols.push(Column(bytes[p3 + i]));
                i = i + 1;
            }
            let cs = ColumnSet(cols);
            proof {
                assert(cs@ =~= bytes@.subrange(p3 as int, p3 + cnt as int));
            }
            Some((Rule::MatchesOp(op, cs), p3 + cnt as usize))
        } else {
            assert(p3 + cnt as int > bytes@.len());
            None
        }
    } else if tag == 1 {
        let (count, p2) = match dexec_u8(bytes, p1) {
            Some(x) => x,
            None => {
                return None;
            },
        };
        let (value, p3) = match dexec_u8(bytes, p2) {
            Some(x) => x,
            None => {
                return None;
            },
        };
        Some((Rule::XColumnsEquals(count, value), p3))
    } else {
        None
    }
}

/// Reads `count` rules, as `dec_rules`.
fn dexec_rules(bytes: &Vec<u8>, pos: usize, count: u32) -> (r: Option<(Rules, usize)>)
    ensures
        (match dec_rules(bytes@, pos as int, count as nat) {
            Some((rs, np)) => r matches Some(p) && p.0@ == rs && p.1 == np,
            None => r is None,
        }),
{
    let mut acc: Vec<Rule> = Vec::new();
    let mut cur: usize = pos;
    let mut i: u32 = 0;
    while i < count
        invariant
            i <= count,
            dec_rules(bytes@, pos as int, i as nat) == Some(
                (crate::rules::rule_views(acc@), cur as int),
            ),
            cur <= bytes@.len() || i == 0,
        decreases count - i,
    {
        let (rule, np) = match dexec_rule(bytes, cur) {
            Some(x) => x,
            None => {
                proof {
                    lemma_dec_rules_failure(bytes@, pos as int, i as nat, count as nat);
                }
                return None;
            },
        };
        let ghost before = crate::rules::rule_views(acc@);
        acc.push(rule);
        proof {
            assert(crate::rules::rule_views(acc@) =~= before.push(rule@));
            lemma_dec_rules_step(bytes@, pos as int, i as nat);
        }
        cur = np;
        i = i + 1;
        proof {
            assert(cur as int <= bytes@.len());
        }
    }
    Some((Rules(acc), cur))
}

/// One more rule extends a successful `dec_rules` prefix.
proof fn lemma_dec_rules_step(b: Seq<u8>, pos: int, i: nat)
    ensures
        (match dec_rules(b, pos, i) {
            Some((rs, p)) => (match dec_rule(b, p) {
                Some((r, p2)) => dec_rules(b, pos, i + 1) == Some((rs.push(r), p2)),
                None => true,
            }),
            None => true,
        }),
{
    assert((i + 1) as nat - 1 == i);
}

/// A failing rule read after a successful prefix fails the whole list.
proof fn lemma_dec_rules_failure(b: Seq<u8>, pos: int, i: nat, count: nat)
    requires
        i < count,
        (match dec_rules(b, pos, i) {
            Some((rs, p)) => dec_rule(b, p) is None,
            None => false,
        }),
    ensures
        dec_rules(b, pos, count) is None,
    decreases count,
{
    if count == i + 1 {
    } else {
        lemma_dec_rules_failure(b, pos, i, (count - 1) as nat);
    }
}

/// Reads characters, as `dec_ascii`.
fn dexec_ascii(bytes: &Vec<u8>, pos: usize, count: u32) -> (r: Option<(String, usize)>)
    ensures
        (match dec_ascii(bytes@, pos as int, count as int) {
            Some((s, np)) => r matches Some(p) && p.0@ == s && p.1 == np,
            None => r is None,
        }),
{
    if !(pos <= bytes.len() && bytes.len() - pos >= count as usize) {
        assert(pos + count as int > bytes@.len());
        return None;
    }
    let mut s = String::new();
    let mut i: usize = 0;
    while i < count as usize
        invariant
            i <= count as int,
            pos + count as int <= bytes@.len(),
            bytes@.len() <= usize::MAX,
            s@.len() == i,
            forall|k: int| 0 <= k < i ==> #[trigger] bytes@[pos + k] < 128,
            forall|k: int| 0 <= k < i ==> s@[k] == (bytes@[pos + k] as u32) as char,
        decreases count as int - i,
    {
        let b = bytes[pos + i];
        if b >= 128 {
            return None;
        }
        let c = char_from_ascii(b);
        string_push(&mut s, c);
        i = i + 1;
    }
    proof {
        assert(s@ =~= Seq::new(count as nat, |k: int| (bytes@[pos + k] as u32) as char));
    }
    Some((s, pos + count as usize))
}

/// Reads a mask, as `dec_mask`.
fn dexec_mask(bytes: &Vec<u8>, pos: usize) -> (r: Option<(BitMask, usize)>)
    ensures
        (match dec_mask(bytes@, pos as int) {
            Some((m, np)) => r matches Some(p) && p.0@ == m && p.1 == np,
            None => r is None,
        }),
{
    let (len, p1) = match dexec_u32(bytes, pos) {
        Some(x) => x,
        None => {
            return None;
        },
    };
    proof {
        crate::code::lemma_shift_of_bound(bytes@.subrange(pos as int, pos + 4), 256);
    }
    if !(p1 <= bytes.len() && bytes.len() - p1 >= len as usize) {
        assert(p1 + len as int > bytes@.len());
        return None;
    }
    let mut mask = BitMask::zeros(len as usize);
    let mut i: usize = 0;
    while i < len as usize
        invariant
            i <= len as int,
            p1 + len as int <= bytes@.len(),
            bytes@.len() <= usize::MAX,
            mask@.len() == len as int,
            forall|k: int| 0 <= k < i ==> mask@[k] == (bytes@[p1 + k] == 1),
            forall|k: int| i <= k < len as int ==> !mask@[k],
        decreases len as int - i,
    {
        let bit = bytes[p1 + i] == 1;
        let res = mask.set(i, bit);
        proof {
            assert(res is Ok);
        }
        i = i + 1;
    }
    proof {
        assert(mask@ =~= Seq::new(len as nat, |k: int| bytes@[p1 + k] == 1));
    }
    Some((mask, p1 + len as usize))
}

/// Reads a criteria, as `dec_criteria`.
fn dexec_criteria(bytes: &Vec<u8>, pos: usize) -> (r: Option<(Criteria, usize)>)
    ensures
        (match dec_criteria(bytes@, pos as int) {
            Some((c, np)) => r matches Some(p) && p.0@ == c && p.1 == np,
            None => r is None,
        }),
{
    let (rule, p1) = match dexec_rule(bytes, pos) {
        Some(x) => x,
        None => {
            return None;
        },
    };
    let (mask, p2) = match dexec_mask(bytes, p1) {
        Some(x) => x,
        None => {
            return None;
        },
    };
    let (dlen, p3) = match dexec_u32(bytes, p2) {
        Some(x) => x,
        None => {
            return None;
        },
    };
    let (description, p4) = match dexec_ascii(bytes, p3, dlen) {
        Some(x) => x,
        None => {
            return None;
        },
    };
    let (rcount, p5) = match dexec_u32(bytes, p4) {
        Some(x) => x,
        None => {
            return None;
        },
    };
    let (rules, p6) = match dexec_rules(bytes, p5, rcount) {
        Some(x) => x,
        None => {
            return None;
        },
    };
    Some((Criteria { verif: Verifier { rule, mask }, description, rules }, p6))
}

/// One more criteria extends a successful `dec_criterias` prefix.
proof fn lemma_dec_criterias_step(b: Seq<u8>, pos: int, i: nat)
    ensures
        (match dec_criterias(b, pos, i) {
            Some((cs, p)) => (match dec_criteria(b, p) {
                Some((c, p2)) => dec_criterias(b, pos, i + 1) == Some((cs.push(c), p2)),
                None => true,
            }),
            None => true,
        }),
{
    assert((i + 1) as nat - 1 == i);
}

/// A failing criteria read after a successful prefix fails the whole list.
proof fn lemma_dec_criterias_failure(b: Seq<u8>, pos: int, i: nat, count: nat)
    requires
        i < count,
        (match dec_criterias(b, pos, i) {
            Some((cs, p)) => dec_criteria(b, p) is None,
            None => false,
        }),
    ensures
        dec_criterias(b, pos, count) is None,
    decreases count,
{
    if count == i + 1 {
    } else {
        lemma_dec_criterias_failure(b, pos, i, (count - 1) as nat);
    }
}

/// Reads `count` criterias, as `dec_criterias`.
fn dexec_criterias(bytes: &Vec<u8>, pos: usize, count: u32) -> (r: Option<(Vec<Criteria>, usize)>)
    ensures
        (match dec_criterias(bytes@, pos as int, count as nat) {
            Some((cs, np)) => r matches Some(p) && p.0@.map_values(|c: Criteria| c@) == cs && p.1
                == np,
            None => r is None,
        }),
{
    let mut acc: Vec<Criteria> = Vec::new();
    let mut cur: usize = pos;
    let mut i: u32 = 0;
    while i < count
        invariant
            i <= count,
            dec_criterias(bytes@, pos as int, i as nat) == Some(
                (acc@.map_values(|c: Criteria| c@), cur as int),
            ),
        decreases count - i,
    {
        let (c, np) = match dexec_criteria(bytes, cur) {
            Some(x) => x,
            None => {
                proof {
                    lemma_dec_criterias_failure(bytes@, pos as int, i as nat, count as nat);
                }
                return None;
            },
        };
        let ghost before = acc@.map_values(|x: Criteria| x@);
        acc.push(c);
        proof {
            assert(acc@.map_values(|x: Criteria| x@) =~= before.push(acc@.last()@));
            lemma_dec_criterias_step(bytes@, pos as int, i as nat);
        }
        cur = np;
        i = i + 1;
    }
    Some((acc, cur))
}

/// A game read back from bytes; `None` exactly when the bytes are not an
/// encoding.
pub fn decode_game(bytes: &Vec<u8>) -> (r: Option<Game>)
    ensures
        (match spec_decode_game(bytes@) {
            Some(gv) => r matches Some(g) && g@ == gv,
            None => r is None,
        }),
{
    if bytes.len() < 4 {
        return None;
    }
    let gc = GameConfiguration {
        column_count: bytes[0],
        base: bytes[1],
        min_difficulty: bytes[2],
    };
    let codelen = bytes[3] as usize;
    if !(bytes.len() - 4 >= codelen) {
        assert(4 + codelen as int > bytes@.len());
        return None;
    }
    let mut code: Vec<u8> = Vec::new();
    let mut i: usize = 0;
    while i < codelen
        invariant
            i <= codelen,
            4 + codelen as int <= bytes@.len(),
            bytes@.len() <= usize::MAX,
            code@.len() == i,
            forall|k: int| 0 <= k < i ==> code@[k] == bytes@[4 + k],
        decreases codelen - i,
    {
        code.push(bytes[4 + i]);
        i = i + 1;
    }
    proof {
        assert(code@ =~= bytes@.subrange(4, 4 + codelen as int));
    }
    let p1 = 4 + codelen;
    let (ccount, p2) = match dexec_u32(bytes, p1) {
        Some(x) => x,
        None => {
            return None;
        },
    };
    let (criterias, p3) = match dexec_criterias(bytes, p2, ccount) {
        Some(x) => x,
        None => {
            return None;
        },
    };
    if p3 != bytes.len() {
        return None;
    }
    Some(Game { configuration: gc, criterias: Criterias(criterias), code: Code(code) })
}
} // verus!
