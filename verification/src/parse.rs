//! Parsing of the plain-text encodings the tracker stores: a user id as a
//! decimal number (the session cookie payload) and a project's participant
//! list as one comma-delimited text column.
//!
//! The id grammar is one or more decimal digits whose value fits in `u8`;
//! anything else is rejected. A participant entry that is rejected is
//! silently dropped, never fatal.

use vstd::prelude::*;

verus! {

/// A decimal digit `'0'..='9'`.
pub open spec fn is_dec_digit(c: char) -> bool {
    48 <= c as u32 <= 57
}

/// Value of a digit string read left to right in base ten.
pub open spec fn dec_value(s: Seq<char>) -> int
    decreases s.len(),
{
    if s.len() == 0 {
        0
    } else {
        dec_value(s.drop_last()) * 10 + ((s.last() as u32) - 48)
    }
}

/// The id grammar: a nonempty, all-digit string whose value fits in `u8`.
pub open spec fn u8_from_dec(s: Seq<char>) -> Option<u8> {
    if s.len() > 0 && (forall|i: int| 0 <= i < s.len() ==> is_dec_digit(s[i])) && dec_value(s)
        < 256 {
        Some(dec_value(s) as u8)
    } else {
        None
    }
}

proof fn lemma_dec_value_nonneg(s: Seq<char>)
    requires
        forall|i: int| 0 <= i < s.len() ==> is_dec_digit(s[i]),
    ensures
        dec_value(s) >= 0,
    decreases s.len(),
{
    if s.len() > 0 {
        lemma_dec_value_nonneg(s.drop_last());
    }
}

/// Appending digits never shrinks the value: the value of a digit-string
/// prefix bounds the value of the whole from below.
proof fn lemma_dec_value_prefix_le(s: Seq<char>, i: int)
    requires
        0 <= i <= s.len(),
        forall|j: int| 0 <= j < s.len() ==> is_dec_digit(s[j]),
    ensures
        dec_value(s.subrange(0, i)) <= dec_value(s),
    decreases s.len() - i,
{
    if i < s.len() {
        let a = s.subrange(0, i);
        let b = s.subrange(0, i + 1);
        assert(b.drop_last() =~= a);
        assert(forall|j: int| 0 <= j < a.len() ==> is_dec_digit(a[j]));
        lemma_dec_value_nonneg(a);
        assert(dec_value(b) == dec_value(a) * 10 + ((b.last() as u32) - 48));
        lemma_dec_value_prefix_le(s, i + 1);
    } else {
        assert(s.subrange(0, i) =~= s);
    }
}

/// Parses one field of characters as a `u8` id, exactly the grammar of
/// [`u8_from_dec`].
pub fn parse_u8_field(cs: &Vec<char>) -> (r: Option<u8>)
    ensures
        r == u8_from_dec(cs@),
{
    let n = cs.len();
    if n == 0 {
        return None;
    }
    let mut acc: u32 = 0;
    let mut i: usize = 0;
    while i < n
        invariant
            0 <= i <= n,
            n == cs@.len(),
            forall|j: int| 0 <= j < i ==> is_dec_digit(cs@[j]),
            acc == dec_value(cs@.subrange(0, i as int)),
            acc <= 255,
        decreases n - i,
    {
        let c = cs[i];
        let d = c as u32;
        if d < 48 || d > 57 {
            assert(!is_dec_digit(cs@[i as int]));
            return None;
        }
        proof {
            assert(cs@.subrange(0, i + 1 as int).drop_last() =~= cs@.subrange(0, i as int));
        }
        acc = acc * 10 + (d - 48);
        i += 1;
        if acc > 255 {
            proof {
                if forall|j: int| 0 <= j < cs@.len() ==> is_dec_digit(cs@[j]) {
                    lemma_dec_value_prefix_le(cs@, i as int);
                }
            }
            return None;
        }
    }
    proof {
        assert(cs@.subrange(0, n as int) =~= cs@);
    }
    Some(acc as u8)
}

/// Parses a string as a `u8` id, exactly the grammar of [`u8_from_dec`].
pub fn parse_u8(s: &str) -> (r: Option<u8>)
    ensures
        r == u8_from_dec(s@),
{
    let n = s.unicode_len();
    let mut cs: Vec<char> = Vec::new();
    let mut i: usize = 0;
    while i < n
        invariant
            0 <= i <= n,
            n == s@.len(),
            cs@ == s@.subrange(0, i as int),
        decreases n - i,
    {
        let c = s.get_char(i);
        cs.push(c);
        proof {
            assert(cs@ =~= s@.subrange(0, i + 1 as int));
        }
        i += 1;
    }
    proof {
        assert(cs@ =~= s@);
    }
    parse_u8_field(&cs)
}

/// The fields of a comma-delimited string, in order. The empty string has
/// one empty field; a trailing comma opens one more empty field.
pub open spec fn split_fields(s: Seq<char>) -> Seq<Seq<char>>
    decreases s.len(),
{
    if s.len() == 0 {
        seq![Seq::empty()]
    } else {
        let prev = split_fields(s.drop_last());
        if s.last() == ',' {
            prev.push(Seq::empty())
        } else {
            prev.update(prev.len() - 1, prev.last().push(s.last()))
        }
    }
}

proof fn lemma_split_fields_nonempty(s: Seq<char>)
    ensures
        split_fields(s).len() >= 1,
    decreases s.len(),
{
    if s.len() > 0 {
        lemma_split_fields_nonempty(s.drop_last());
    }
}

/// The ids among a list of fields, in order, fields that do not parse
/// silently dropped.
pub open spec fn parsed_fields(fields: Seq<Seq<char>>) -> Seq<u8>
    decreases fields.len(),
{
    if fields.len() == 0 {
        Seq::empty()
    } else {
        parsed_fields(fields.drop_last()) + match u8_from_dec(fields.last()) {
            Some(v) => seq![v],
            None => Seq::empty(),
        }
    }
}

/// The participant ids encoded by a comma-delimited text column.
pub open spec fn participants_of(s: Seq<char>) -> Seq<u8> {
    parsed_fields(split_fields(s))
}

/// Decodes a project's participant column: splits on commas, parses each
/// field as a `u8` id, and silently drops the fields that do not parse.
pub fn parse_participants(s: &str) -> (r: Vec<u8>)
    ensures
        r@ == participants_of(s@),
{
    let n = s.unicode_len();
    let mut out: Vec<u8> = Vec::new();
    let mut cur: Vec<char> = Vec::new();
    let mut i: usize = 0;
    proof {
        assert(s@.subrange(0, 0) =~= Seq::<char>::empty());
    }
    while i < n
        invariant
            0 <= i <= n,
            n == s@.len(),
            split_fields(s@.subrange(0, i as int)).len() >= 1,
            cur@ == split_fields(s@.subrange(0, i as int)).last(),
            out@ == parsed_fields(split_fields(s@.subrange(0, i as int)).drop_last()),
        decreases n - i,
    {
        let ghost prefix = s@.subrange(0, i as int);
        let ghost fs = split_fields(prefix);
        let c = s.get_char(i);
        proof {
            assert(s@.subrange(0, i + 1 as int).drop_last() =~= prefix);
            assert(s@.subrange(0, i + 1 as int).last() == s@[i as int]);
            lemma_split_fields_nonempty(prefix);
        }
        if c == ',' {
            let ghost fs2 = split_fields(s@.subrange(0, i + 1 as int));
            proof {
                assert(fs2 == fs.push(Seq::<char>::empty()));
                assert(fs2.drop_last() =~= fs);
                assert(parsed_fields(fs) == parsed_fields(fs.drop_last()) + match u8_from_dec(
                    fs.last(),
                ) {
                    Some(v) => seq![v],
                    None => Seq::<u8>::empty(),
                });
            }
            match parse_u8_field(&cur) {
                Some(v) => { out.push(v); },
                None => {},
            }
            cur = Vec::new();
            proof {
                assert(out@ =~= parsed_fields(fs2.drop_last()));
            }
        } else {
            let ghost fs2 = split_fields(s@.subrange(0, i + 1 as int));
            cur.push(c);
            proof {
                assert(fs2 == fs.update(fs.len() - 1, fs.last().push(s@[i as int])));
                assert(fs2.drop_last() =~= fs.drop_last());
                assert(fs2.last() == fs.last().push(s@[i as int]));
            }
        }
        i += 1;
    }
    proof {
        assert(s@.subrange(0, n as int) =~= s@);
        lemma_split_fields_nonempty(s@);
        assert(parsed_fields(split_fields(s@)) == parsed_fields(split_fields(s@).drop_last())
            + match u8_from_dec(split_fields(s@).last()) {
            Some(v) => seq![v],
            None => Seq::<u8>::empty(),
        });
    }
    match parse_u8_field(&cur) {
        Some(v) => { out.push(v); },
        None => {},
    }
    proof {
        assert(out@ =~= participants_of(s@));
    }
    out
}

} // verus!
