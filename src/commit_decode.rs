//! Reading commit objects back from their encoding.
use crate::bytes::{
    all_digits, copy_range, dec, dec_signed, digits_value, find_byte, find_from, is_digit,
    lemma_dec_digits, lemma_find_from_at, lemma_find_from_facts, utf8_to_string,
};
use crate::commit::{
    author_encoding, author_label, committer_label, content_encoding, parent_label,
    parents_encoding, tree_label, AuthorModel, CommitAuthor, CommitContent, CommitObject,
    ContentModel,
};
use crate::error::DecodeError;
use crate::header::{lemma_parse_header_encoding, parse_header, ObjectHeader};
use crate::traits::ToBytes;
use vstd::prelude::*;
use vstd::utf8::{decode_utf8, encode_utf8, encode_utf8_decode_utf8, encode_utf8_valid_utf8, valid_utf8};

verus! {

/// `b` without the prefix `p`, if it starts with it.
pub open spec fn strip_prefix(b: Seq<u8>, p: Seq<u8>) -> Option<Seq<u8>> {
    if b.len() >= p.len() && b.subrange(0, p.len() as int) == p {
        Some(b.subrange(p.len() as int, b.len() as int))
    } else {
        None
    }
}

/// The text before the first `d` in `b`, and what follows that `d`.
pub open spec fn split_at_byte(b: Seq<u8>, d: u8) -> Option<(Seq<u8>, Seq<u8>)> {
    match find_from(b, d, 0) {
        Some(k) => Some((b.subrange(0, k), b.subrange(k + 1, b.len() as int))),
        None => None,
    }
}

pub proof fn lemma_strip_prefix(p: Seq<u8>, t: Seq<u8>)
    ensures
        strip_prefix(p + t, p) == Some(t),
{
    assert((p + t).subrange(0, p.len() as int) =~= p);
    assert((p + t).subrange(p.len() as int, (p + t).len() as int) =~= t);
}

pub proof fn lemma_split_at_byte(x: Seq<u8>, d: u8, t: Seq<u8>)
    requires
        !x.contains(d),
    ensures
        split_at_byte(x + seq![d] + t, d) == Some((x, t)),
{
    let b = x + seq![d] + t;
    assert forall|j: int| 0 <= j < x.len() implies #[trigger] b[j] != d by {
        assert(b[j] == x[j]);
    }
    lemma_find_from_at(b, d, 0, x.len() as int);
    assert(b.subrange(0, x.len() as int) =~= x);
    assert(b.subrange(x.len() as int + 1, b.len() as int) =~= t);
}

/// A signed decimal numeral: an optional `-` and at least one digit.
pub open spec fn parse_signed(s: Seq<u8>) -> Option<i64> {
    if s.len() > 0 && s[0] == 45u8 {
        let m = s.subrange(1, s.len() as int);
        if m.len() == 0 || !all_digits(m) || digits_value(m) > 0x8000_0000_0000_0000 {
            None
        } else {
            Some((-digits_value(m)) as i64)
        }
    } else {
        if s.len() == 0 || !all_digits(s) || digits_value(s) > 0x7fff_ffff_ffff_ffff {
            None
        } else {
            Some(digits_value(s) as i64)
        }
    }
}

pub proof fn lemma_parse_signed(t: i64)
    ensures
        parse_signed(dec_signed(t as int)) == Some(t),
{
    if t < 0 {
        let n = (-(t as int)) as nat;
        lemma_dec_digits(n);
        assert(dec_signed(t as int).subrange(1, dec_signed(t as int).len() as int) =~= dec(n));
    } else {
        lemma_dec_digits(t as nat);
        assert(dec(t as nat)[0] != 45u8);
    }
}

/// Reads an author line: `"<name> <<email>> <timestamp> <timezone>"`.
pub open spec fn parse_author(a: Seq<u8>) -> Option<AuthorModel> {
    match split_at_byte(a, 60u8) {
        None => None,
        Some((front, r1)) => {
            if front.len() == 0 || front.last() != 32u8 {
                None
            } else {
                let name = front.drop_last();
                match split_at_byte(r1, 62u8) {
                    None => None,
                    Some((email, r2)) => match strip_prefix(r2, seq![32u8]) {
                        None => None,
                        Some(r3) => match split_at_byte(r3, 32u8) {
                            None => None,
                            Some((ts, tz)) => match parse_signed(ts) {
                                None => None,
                                Some(t) => {
                                    if valid_utf8(name) && valid_utf8(email) && valid_utf8(tz) {
                                        Some(
                                            AuthorModel {
                                                name: decode_utf8(name),
                                                email: decode_utf8(email),
                                                timestamp: t,
                                                timezone: decode_utf8(tz),
                                            },
                                        )
                                    } else {
                                        None
                                    }
                                },
                            },
                        },
                    },
                }
            }
        },
    }
}

/// Reads the `"parent <hash>\n"` lines that open `b`: the hashes and what
/// follows them.
pub open spec fn parse_parent_lines(b: Seq<u8>) -> (Seq<Seq<u8>>, Seq<u8>)
    decreases b.len(),
{
    match strip_prefix(b, parent_label()) {
        None => (Seq::empty(), b),
        Some(r) => match split_at_byte(r, 10u8) {
            None => (Seq::empty(), b),
            Some((p, t)) => {
                if t.len() < b.len() {
                    let (ps, u) = parse_parent_lines(t);
                    (seq![p] + ps, u)
                } else {
                    (Seq::empty(), b)
                }
            },
        },
    }
}

pub open spec fn all_valid_utf8(ps: Seq<Seq<u8>>) -> bool {
    forall|i: int| 0 <= i < ps.len() ==> valid_utf8(#[trigger] ps[i])
}

/// Reads a commit body.
pub open spec fn parse_content(b: Seq<u8>) -> Option<ContentModel> {
    match strip_prefix(b, tree_label()) {
        None => None,
        Some(r0) => match split_at_byte(r0, 10u8) {
            None => None,
            Some((tree, r1)) => {
                let (ps, r2) = parse_parent_lines(r1);
                match strip_prefix(r2, author_label()) {
                    None => None,
                    Some(r3) => match split_at_byte(r3, 10u8) {
                        None => None,
                        Some((a, r4)) => match strip_prefix(r4, committer_label()) {
                            None => None,
                            Some(r5) => match split_at_byte(r5, 10u8) {
                                None => None,
                                Some((c, r6)) => match strip_prefix(r6, seq![10u8]) {
                                    None => None,
                                    Some(m) => {
                                        if m.len() == 0 || m.last() != 10u8 || !valid_utf8(tree)
                                            || !all_valid_utf8(ps) || !valid_utf8(m.drop_last()) {
                                            None
                                        } else {
                                            match (parse_author(a), parse_author(c)) {
                                                (Some(am), Some(cm)) => Some(
                                                    ContentModel {
                                                        tree: decode_utf8(tree),
                                                        parents: ps.map_values(
                                                            |p: Seq<u8>| decode_utf8(p),
                                                        ),
                                                        author: am,
                                                        committer: cm,
                                                        message: decode_utf8(m.drop_last()),
                                                    },
                                                ),
                                                _ => None,
                                            }
                                        }
                                    },
                                },
                            },
                        },
                    },
                }
            },
        },
    }
}

/// An author whose line reads back: no `<` or newline in the name, no `>`
/// or newline in the e-mail, no newline in the time zone.
pub open spec fn author_is_valid(a: AuthorModel) -> bool {
    &&& !encode_utf8(a.name).contains(60u8)
    &&& !encode_utf8(a.name).contains(10u8)
    &&& !encode_utf8(a.email).contains(62u8)
    &&& !encode_utf8(a.email).contains(10u8)
    &&& !encode_utf8(a.timezone).contains(10u8)
}

/// A commit body that reads back: single-line tree and parent hashes and
/// valid authors.
pub open spec fn content_is_valid(c: ContentModel) -> bool {
    &&& !encode_utf8(c.tree).contains(10u8)
    &&& forall|i: int| 0 <= i < c.parents.len() ==> !encode_utf8(#[trigger] c.parents[i]).contains(10u8)
    &&& author_is_valid(c.author)
    &&& author_is_valid(c.committer)
}

pub proof fn lemma_author_round_trip(a: AuthorModel)
    requires
        author_is_valid(a),
    ensures
        parse_author(author_encoding(a)) == Some(a),
{
    let n = encode_utf8(a.name);
    let e = encode_utf8(a.email);
    let ts = dec_signed(a.timestamp as int);
    let tz = encode_utf8(a.timezone);
    let b = author_encoding(a);
    lemma_dec_digits(if a.timestamp < 0 { (-(a.timestamp as int)) as nat } else { a.timestamp as nat });
    assert(!ts.contains(32u8)) by {
        if ts.contains(32u8) {
            let k = choose|k: int| 0 <= k < ts.len() && ts[k] == 32u8;
            if a.timestamp < 0 {
                if k > 0 {
                    assert(ts[k] == dec((-(a.timestamp as int)) as nat)[k - 1]);
                }
            }
        }
    }
    assert(b =~= (n + seq![32u8]) + seq![60u8] + (e + seq![62u8] + seq![32u8] + ts + seq![32u8] + tz));
    lemma_split_at_byte(n + seq![32u8], 60u8, e + seq![62u8] + seq![32u8] + ts + seq![32u8] + tz);
    assert((n + seq![32u8]).drop_last() =~= n);
    assert(e + seq![62u8] + seq![32u8] + ts + seq![32u8] + tz =~= e + seq![62u8] + (seq![32u8] + ts + seq![32u8] + tz));
    lemma_split_at_byte(e, 62u8, seq![32u8] + ts + seq![32u8] + tz);
    lemma_strip_prefix(seq![32u8], ts + seq![32u8] + tz);
    assert(seq![32u8] + (ts + seq![32u8] + tz) =~= seq![32u8] + ts + seq![32u8] + tz);
    lemma_split_at_byte(ts, 32u8, tz);
    lemma_parse_signed(a.timestamp);
    encode_utf8_valid_utf8(a.name);
    encode_utf8_valid_utf8(a.email);
    encode_utf8_valid_utf8(a.timezone);
    encode_utf8_decode_utf8(a.name);
    encode_utf8_decode_utf8(a.email);
    encode_utf8_decode_utf8(a.timezone);
}

pub proof fn lemma_parents_front(ps: Seq<Seq<char>>)
    requires
        ps.len() > 0,
    ensures
        parents_encoding(ps) == parent_label() + encode_utf8(ps[0]) + seq![10u8] + parents_encoding(
            ps.drop_first(),
        ),
    decreases ps.len(),
{
    if ps.len() == 1 {
        assert(ps.drop_last() =~= Seq::<Seq<char>>::empty());
        assert(ps.drop_first() =~= Seq::<Seq<char>>::empty());
        assert(parents_encoding(Seq::<Seq<char>>::empty()) == Seq::<u8>::empty());
        assert(ps.last() == ps[0]);
        assert(parents_encoding(ps) =~= parent_label() + encode_utf8(ps[0]) + seq![10u8]);
        assert(parents_encoding(ps) =~= parent_label() + encode_utf8(ps[0]) + seq![10u8]
            + parents_encoding(ps.drop_first()));
    } else {
        lemma_parents_front(ps.drop_last());
        assert(ps.drop_last().drop_first() =~= ps.drop_first().drop_last());
        assert(ps.drop_last()[0] == ps[0]);
        assert(ps.drop_first().last() == ps.last());
        assert(parents_encoding(ps) =~= parent_label() + encode_utf8(ps[0]) + seq![10u8]
            + parents_encoding(ps.drop_first()));
    }
}

pub proof fn lemma_parse_parent_lines(ps: Seq<Seq<char>>, rest: Seq<u8>)
    requires
        forall|i: int| 0 <= i < ps.len() ==> !encode_utf8(#[trigger] ps[i]).contains(10u8),
        strip_prefix(rest, parent_label()) is None,
    ensures
        parse_parent_lines(parents_encoding(ps) + rest) == (
            ps.map_values(|p: Seq<char>| encode_utf8(p)),
            rest,
        ),
    decreases ps.len(),
{
    if ps.len() == 0 {
        assert(parents_encoding(ps) + rest =~= rest);
        assert(ps.map_values(|p: Seq<char>| encode_utf8(p)) =~= Seq::<Seq<u8>>::empty());
    } else {
        lemma_parents_front(ps);
        let p = encode_utf8(ps[0]);
        let tail = parents_encoding(ps.drop_first()) + rest;
        let b = parents_encoding(ps) + rest;
        assert(b =~= parent_label() + (p + seq![10u8] + tail));
        lemma_strip_prefix(parent_label(), p + seq![10u8] + tail);
        assert(!p.contains(10u8));
        lemma_split_at_byte(p, 10u8, tail);
        assert forall|i: int| 0 <= i < ps.drop_first().len() implies !encode_utf8(#[trigger] ps.drop_first()[i]).contains(10u8) by {
            assert(ps.drop_first()[i] == ps[i + 1]);
        }
        lemma_parse_parent_lines(ps.drop_first(), rest);
        assert(seq![p] + ps.drop_first().map_values(|p: Seq<char>| encode_utf8(p)) =~= ps.map_values(
            |p: Seq<char>| encode_utf8(p),
        ));
    }
}

/// What follows the parent lines of a commit body reads back as its
/// author line, committer line and message.
proof fn lemma_content_tail(c: ContentModel)
    requires
        content_is_valid(c),
    ensures
        ({
            let a = author_encoding(c.author);
            let cm = author_encoding(c.committer);
            let m = encode_utf8(c.message);
            let r2 = author_label() + a + seq![10u8] + committer_label() + cm + seq![10u8, 10] + m
                + seq![10u8];
            let r3 = a + seq![10u8] + (committer_label() + cm + seq![10u8, 10] + m + seq![10u8]);
            let r4 = committer_label() + cm + seq![10u8, 10] + m + seq![10u8];
            let r5 = cm + seq![10u8] + (seq![10u8] + m + seq![10u8]);
            let r6 = seq![10u8] + m + seq![10u8];
            &&& strip_prefix(r2, parent_label()) is None
            &&& strip_prefix(r2, author_label()) == Some(r3)
            &&& split_at_byte(r3, 10u8) == Some((a, r4))
            &&& strip_prefix(r4, committer_label()) == Some(r5)
            &&& split_at_byte(r5, 10u8) == Some((cm, r6))
            &&& strip_prefix(r6, seq![10u8]) == Some(m + seq![10u8])
        }),
{
    let a = author_encoding(c.author);
    let cm = author_encoding(c.committer);
    let m = encode_utf8(c.message);
    let r2 = author_label() + a + seq![10u8] + committer_label() + cm + seq![10u8, 10] + m + seq![10u8];
    let r3 = a + seq![10u8] + (committer_label() + cm + seq![10u8, 10] + m + seq![10u8]);
    let r4 = committer_label() + cm + seq![10u8, 10] + m + seq![10u8];
    let r5 = cm + seq![10u8] + (seq![10u8] + m + seq![10u8]);
    let r6 = seq![10u8] + m + seq![10u8];
    assert(strip_prefix(r2, parent_label()) is None) by {
        assert(r2[0] == 97u8);
        assert(parent_label()[0] == 112u8);
        if r2.len() >= parent_label().len() {
            assert(r2.subrange(0, 7)[0] == 97u8);
            assert(r2.subrange(0, 7) != parent_label());
        }
    }
    assert(r2 =~= author_label() + r3);
    lemma_strip_prefix(author_label(), r3);
    lemma_author_has_no_newline(c.author);
    lemma_split_at_byte(a, 10u8, r4);
    assert(r4 =~= committer_label() + r5);
    lemma_strip_prefix(committer_label(), r5);
    lemma_author_has_no_newline(c.committer);
    lemma_split_at_byte(cm, 10u8, r6);
    assert(r6 =~= seq![10u8] + (m + seq![10u8]));
    lemma_strip_prefix(seq![10u8], m + seq![10u8]);
}

/// Decoding the body of a valid commit gives its content back.
#[verifier::rlimit(50)]
pub proof fn commit_content_round_trip(c: ContentModel)
    requires
        content_is_valid(c),
    ensures
        parse_content(content_encoding(c)) == Some(c),
{
    let t = encode_utf8(c.tree);
    let pe = parents_encoding(c.parents);
    let a = author_encoding(c.author);
    let cm = author_encoding(c.committer);
    let m = encode_utf8(c.message);
    let b = content_encoding(c);
    let r2 = author_label() + a + seq![10u8] + committer_label() + cm + seq![10u8, 10] + m + seq![10u8];
    let after_tree = pe + r2;
    assert(b =~= tree_label() + (t + seq![10u8] + after_tree));
    lemma_strip_prefix(tree_label(), t + seq![10u8] + after_tree);
    lemma_split_at_byte(t, 10u8, after_tree);
    lemma_content_tail(c);
    lemma_parse_parent_lines(c.parents, r2);
    assert((m + seq![10u8]).drop_last() =~= m);
    lemma_author_round_trip(c.author);
    lemma_author_round_trip(c.committer);
    encode_utf8_valid_utf8(c.tree);
    encode_utf8_valid_utf8(c.message);
    encode_utf8_decode_utf8(c.tree);
    encode_utf8_decode_utf8(c.message);
    let ps = c.parents.map_values(|p: Seq<char>| encode_utf8(p));
    assert forall|i: int| 0 <= i < ps.len() implies valid_utf8(#[trigger] ps[i]) by {
        encode_utf8_valid_utf8(c.parents[i]);
    }
    let back = ps.map_values(|p: Seq<u8>| decode_utf8(p));
    assert forall|i: int| 0 <= i < c.parents.len() implies #[trigger] back[i] == c.parents[i] by {
        encode_utf8_decode_utf8(c.parents[i]);
    }
    assert(back =~= c.parents);
}

proof fn lemma_author_has_no_newline(a: AuthorModel)
    requires
        author_is_valid(a),
    ensures
        !author_encoding(a).contains(10u8),
{
    let n = encode_utf8(a.name);
    let e = encode_utf8(a.email);
    let ts = dec_signed(a.timestamp as int);
    let tz = encode_utf8(a.timezone);
    lemma_dec_digits(if a.timestamp < 0 { (-(a.timestamp as int)) as nat } else { a.timestamp as nat });
    let b = author_encoding(a);
    assert forall|k: int| 0 <= k < b.len() implies #[trigger] b[k] != 10u8 by {
        let l1 = n.len() as int;
        let l2 = l1 + 2 + e.len();
        let l3 = l2 + 2 + ts.len();
        if k < l1 {
            assert(b[k] == n[k]);
        } else if k < l1 + 2 {
        } else if k < l2 {
            assert(b[k] == e[k - l1 - 2]);
        } else if k < l2 + 2 {
        } else if k < l3 {
            assert(b[k] == ts[k - l2 - 2]);
            if a.timestamp < 0 && k - l2 - 2 > 0 {
                assert(ts[k - l2 - 2] == dec((-(a.timestamp as int)) as nat)[k - l2 - 3]);
            }
        } else if k == l3 {
        } else {
            assert(b[k] == tz[k - l3 - 1]);
        }
    }
}

fn strip_prefix_bytes(b: &[u8], p: &[u8]) -> (r: Option<Vec<u8>>)
    ensures
        match r {
            Some(v) => strip_prefix(b@, p@) == Some(v@),
            None => strip_prefix(b@, p@) is None,
        },
{
    if b.len() < p.len() {
        return None;
    }
    let mut i: usize = 0;
    while i < p.len()
        invariant
            i <= p@.len() <= b@.len(),
            forall|j: int| 0 <= j < i ==> b@[j] == p@[j],
        decreases p@.len() - i,
    {
        if b[i] != p[i] {
            assert(b@.subrange(0, p@.len() as int)[i as int] != p@[i as int]);
            return None;
        }
        i = i + 1;
    }
    assert(b@.subrange(0, p@.len() as int) =~= p@);
    Some(copy_range(b, p.len(), b.len()))
}

fn split_bytes(b: &[u8], d: u8) -> (r: Option<(Vec<u8>, Vec<u8>)>)
    ensures
        match r {
            Some((x, t)) => split_at_byte(b@, d) == Some((x@, t@)),
            None => split_at_byte(b@, d) is None,
        },
{
    proof {
        lemma_find_from_facts(b@, d, 0);
    }
    let n = b.len();
    match find_byte(b, d, 0) {
        Some(k) => Some((copy_range(b, 0, k), copy_range(b, k + 1, n))),
        None => None,
    }
}

fn parse_digits_u64(m: &[u8], limit: u64) -> (r: Option<u64>)
    requires
        limit >= 9,
    ensures
        match r {
            Some(v) => m@.len() > 0 && all_digits(m@) && digits_value(m@) == v && v <= limit,
            None => m@.len() == 0 || !all_digits(m@) || digits_value(m@) > limit,
        },
{
    if m.len() == 0 {
        return None;
    }
    let mut v: u64 = 0;
    let mut i: usize = 0;
    assert(m@.subrange(0, 0) =~= Seq::<u8>::empty());
    while i < m.len()
        invariant
            i <= m@.len(),
            all_digits(m@.subrange(0, i as int)),
            v == digits_value(m@.subrange(0, i as int)),
            v <= limit,
            limit >= 9,
        decreases m@.len() - i,
    {
        let c = m[i];
        let ghost prev = m@.subrange(0, i as int);
        let ghost next = m@.subrange(0, i + 1);
        assert(next.drop_last() =~= prev);
        if c < 48u8 || c > 57u8 {
            assert(!is_digit(m@[i as int]));
            return None;
        }
        assert(all_digits(next)) by {
            assert forall|j: int| 0 <= j < next.len() implies is_digit(#[trigger] next[j]) by {
                if j < i {
                    assert(next[j] == prev[j]);
                }
            }
        }
        let d = (c - 48u8) as u64;
        if v > (limit - d) / 10 {
            proof {
                assert(10 * v + d > limit) by (nonlinear_arith)
                    requires
                        v > (limit - d) / 10,
                        d <= limit || d > limit,
                        0 <= d,
                ;
                crate::header::lemma_digits_value_prefix(m@, i + 1);
                assert(m@.subrange(0, m@.len() as int) =~= m@);
            }
            return None;
        }
        proof {
            assert(10 * v + d <= limit) by (nonlinear_arith)
                requires
                    v <= (limit - d) / 10,
                    d <= limit,
            ;
        }
        v = 10 * v + d;
        i = i + 1;
    }
    assert(m@.subrange(0, m@.len() as int) =~= m@);
    Some(v)
}

fn parse_signed_bytes(s: &[u8]) -> (r: Option<i64>)
    ensures
        r == parse_signed(s@),
{
    if s.len() > 0 && s[0] == 45u8 {
        let m = copy_range(s, 1, s.len());
        match parse_digits_u64(m.as_slice(), 0x8000_0000_0000_0000u64) {
            None => None,
            Some(v) => {
                if v == 0x8000_0000_0000_0000u64 {
                    Some(i64::MIN)
                } else {
                    Some(-(v as i64))
                }
            },
        }
    } else {
        match parse_digits_u64(s, 0x7fff_ffff_ffff_ffffu64) {
            None => None,
            Some(v) => Some(v as i64),
        }
    }
}

fn text_of(v: Vec<u8>) -> (r: Option<String>)
    ensures
        match r {
            Some(s) => valid_utf8(v@) && s@ == decode_utf8(v@),
            None => !valid_utf8(v@),
        },
{
    let ghost b = v@;
    match utf8_to_string(v) {
        Some(s) => {
            proof {
                encode_utf8_decode_utf8(s@);
            }
            Some(s)
        },
        None => None,
    }
}

fn parse_author_bytes(a: &[u8]) -> (r: Option<CommitAuthor>)
    ensures
        match r {
            Some(x) => parse_author(a@) == Some(x@),
            None => parse_author(a@) is None,
        },
{
    let (front, r1) = match split_bytes(a, 60u8) {
        Some(p) => p,
        None => return None,
    };
    if front.len() == 0 || front[front.len() - 1] != 32u8 {
        return None;
    }
    let name_bytes = copy_range(front.as_slice(), 0, front.len() - 1);
    assert(name_bytes@ =~= front@.drop_last());
    let (email_bytes, r2) = match split_bytes(r1.as_slice(), 62u8) {
        Some(p) => p,
        None => return None,
    };
    let sp = vec![32u8];
    assert(sp@ =~= seq![32u8]);
    let r3 = match strip_prefix_bytes(r2.as_slice(), sp.as_slice()) {
        Some(v) => v,
        None => return None,
    };
    let (ts, tz_bytes) = match split_bytes(r3.as_slice(), 32u8) {
        Some(p) => p,
        None => return None,
    };
    let timestamp = match parse_signed_bytes(ts.as_slice()) {
        Some(t) => t,
        None => return None,
    };
    let name = text_of(name_bytes);
    let email = text_of(email_bytes);
    let timezone = text_of(tz_bytes);
    match (name, email, timezone) {
        (Some(name), Some(email), Some(timezone)) => Some(CommitAuthor { name, email, timestamp, timezone }),
        _ => None,
    }
}

fn parse_parent_lines_bytes(b: Vec<u8>) -> (r: (Vec<Vec<u8>>, Vec<u8>))
    ensures
        (r.0@.map_values(|v: Vec<u8>| v@), r.1@) == parse_parent_lines(b@),
{
    let mut found: Vec<Vec<u8>> = Vec::new();
    let ghost start = b@;
    let mut rest = b;
    let label = vec![112u8, 97, 114, 101, 110, 116, 32];
    assert(label@ =~= parent_label());
    assert(found@.map_values(|v: Vec<u8>| v@) =~= Seq::<Seq<u8>>::empty());
    loop
        invariant
            label@ == parent_label(),
            start == b@,
            parse_parent_lines(start) == ({
                let (ps, u) = parse_parent_lines(rest@);
                (found@.map_values(|v: Vec<u8>| v@) + ps, u)
            }),
        decreases rest@.len(),
    {
        let r = match strip_prefix_bytes(rest.as_slice(), label.as_slice()) {
            Some(v) => v,
            None => {
                assert(parse_parent_lines(rest@) == (Seq::<Seq<u8>>::empty(), rest@));
                assert(found@.map_values(|v: Vec<u8>| v@) + Seq::<Seq<u8>>::empty() =~= found@.map_values(|v: Vec<u8>| v@));
                return (found, rest);
            },
        };
        let (p, t) = match split_bytes(r.as_slice(), 10u8) {
            Some(x) => x,
            None => {
                assert(parse_parent_lines(rest@) == (Seq::<Seq<u8>>::empty(), rest@));
                assert(found@.map_values(|v: Vec<u8>| v@) + Seq::<Seq<u8>>::empty() =~= found@.map_values(|v: Vec<u8>| v@));
                return (found, rest);
            },
        };
        if t.len() >= rest.len() {
            assert(parse_parent_lines(rest@) == (Seq::<Seq<u8>>::empty(), rest@));
            assert(found@.map_values(|v: Vec<u8>| v@) + Seq::<Seq<u8>>::empty() =~= found@.map_values(|v: Vec<u8>| v@));
            return (found, rest);
        }
        let ghost before = found@.map_values(|v: Vec<u8>| v@);
        let ghost pv = p@;
        found.push(p);
        proof {
            let (ps, u) = parse_parent_lines(t@);
            assert(found@.map_values(|v: Vec<u8>| v@) =~= before.push(pv));
            assert(before + (seq![pv] + ps) =~= before.push(pv) + ps);
        }
        rest = t;
    }
}

impl CommitContent {
    /// Decodes a commit body.
    #[verifier::loop_isolation(false)]
    pub fn try_from(data: Vec<u8>) -> (r: Result<CommitContent, DecodeError>)
        ensures
            match parse_content(data@) {
                Some(c) => r matches Ok(x) && x@ == c,
                None => r == Err::<CommitContent, DecodeError>(DecodeError::InvalidCommit),
            },
    {
        let tree_l = vec![116u8, 114, 101, 101, 32];
        assert(tree_l@ =~= crate::commit::tree_label());
        let r0 = match strip_prefix_bytes(data.as_slice(), tree_l.as_slice()) {
            Some(v) => v,
            None => return Err(DecodeError::InvalidCommit),
        };
        let (tree, r1) = match split_bytes(r0.as_slice(), 10u8) {
            Some(x) => x,
            None => return Err(DecodeError::InvalidCommit),
        };
        let (parent_bytes, r2) = parse_parent_lines_bytes(r1);
        let author_l = vec![97u8, 117, 116, 104, 111, 114, 32];
        assert(author_l@ =~= author_label());
        let r3 = match strip_prefix_bytes(r2.as_slice(), author_l.as_slice()) {
            Some(v) => v,
            None => return Err(DecodeError::InvalidCommit),
        };
        let (a, r4) = match split_bytes(r3.as_slice(), 10u8) {
            Some(x) => x,
            None => return Err(DecodeError::InvalidCommit),
        };
        let committer_l = vec![99u8, 111, 109, 109, 105, 116, 116, 101, 114, 32];
        assert(committer_l@ =~= committer_label());
        let r5 = match strip_prefix_bytes(r4.as_slice(), committer_l.as_slice()) {
            Some(v) => v,
            None => return Err(DecodeError::InvalidCommit),
        };
        let (c, r6) = match split_bytes(r5.as_slice(), 10u8) {
            Some(x) => x,
            None => return Err(DecodeError::InvalidCommit),
        };
        let nl = vec![10u8];
        assert(nl@ =~= seq![10u8]);
        let m = match strip_prefix_bytes(r6.as_slice(), nl.as_slice()) {
            Some(v) => v,
            None => return Err(DecodeError::InvalidCommit),
        };
        if m.len() == 0 || m[m.len() - 1] != 10u8 {
            return Err(DecodeError::InvalidCommit);
        }
        let message_bytes = copy_range(m.as_slice(), 0, m.len() - 1);
        assert(message_bytes@ =~= m@.drop_last());
        let tree_sha = match text_of(tree) {
            Some(t) => t,
            None => return Err(DecodeError::InvalidCommit),
        };
        let ghost ps = parent_bytes@.map_values(|v: Vec<u8>| v@);
        let mut parent_sha: Vec<String> = Vec::new();
        let mut i: usize = 0;
        while i < parent_bytes.len()
            invariant
                i <= parent_bytes@.len(),
                ps == parent_bytes@.map_values(|v: Vec<u8>| v@),
                parent_sha@.len() == i,
                forall|j: int| 0 <= j < i ==> valid_utf8(#[trigger] ps[j]) && parent_sha@[j]@ == decode_utf8(ps[j]),
            decreases parent_bytes@.len() - i,
        {
            let v = copy_range(parent_bytes[i].as_slice(), 0, parent_bytes[i].len());
            assert(parent_bytes@[i as int]@.subrange(0, parent_bytes@[i as int]@.len() as int) =~= parent_bytes@[i as int]@);
            match text_of(v) {
                Some(t) => {
                    parent_sha.push(t);
                },
                None => {
                    assert(ps[i as int] == parent_bytes@[i as int]@);
                    assert(!valid_utf8(ps[i as int]));
                    assert(!all_valid_utf8(ps));
                    return Err(DecodeError::InvalidCommit);
                },
            }
            i = i + 1;
        }
        let message = match text_of(message_bytes) {
            Some(t) => t,
            None => return Err(DecodeError::InvalidCommit),
        };
        let author = match parse_author_bytes(a.as_slice()) {
            Some(x) => x,
            None => return Err(DecodeError::InvalidCommit),
        };
        let committer = match parse_author_bytes(c.as_slice()) {
            Some(x) => x,
            None => return Err(DecodeError::InvalidCommit),
        };
        let r = CommitContent { tree_sha, parent_sha, author, committer, message };
        assert(r@.parents =~= ps.map_values(|p: Seq<u8>| decode_utf8(p)));
        Ok(r)
    }
}

/// Reads a commit object: its header, then a body of the size that the
/// header gives.
pub open spec fn parse_commit(b: Seq<u8>) -> Result<(ObjectHeader, ContentModel), DecodeError> {
    match parse_header(b) {
        Err(e) => Err(e),
        Ok((h, n)) => {
            if b.len() - n < h.size {
                Err(DecodeError::SizeMismatch)
            } else {
                match parse_content(b.subrange(n, n + h.size)) {
                    None => Err(DecodeError::InvalidCommit),
                    Some(c) => Ok((h, c)),
                }
            }
        },
    }
}

impl CommitObject {
    /// Decodes a commit object.
    pub fn try_from(data: Vec<u8>) -> (r: Result<CommitObject, DecodeError>)
        ensures
            match r {
                Ok(o) => parse_commit(data@) == Ok::<(ObjectHeader, ContentModel), DecodeError>(
                    (o.header, o.content@),
                ),
                Err(e) => parse_commit(data@) == Err::<(ObjectHeader, ContentModel), DecodeError>(e),
            },
    {
        let (header, n) = match ObjectHeader::parse_prefix(data.as_slice()) {
            Ok(p) => p,
            Err(e) => return Err(e),
        };
        if data.len() - n < header.size {
            return Err(DecodeError::SizeMismatch);
        }
        let body = copy_range(data.as_slice(), n, n + header.size);
        match CommitContent::try_from(body) {
            Ok(content) => Ok(CommitObject { header, content }),
            Err(e) => Err(e),
        }
    }
}

/// Decoding the encoding of a valid commit gives the commit back.
pub proof fn commit_round_trip(o: CommitObject)
    requires
        o.header == (ObjectHeader {
            object_type: crate::header::ObjectType::Commit,
            size: o.header.size,
        }),
        o.header.size == content_encoding(o.content@).len(),
        content_is_valid(o.content@),
    ensures
        parse_commit(o.encoded()) == Ok::<(ObjectHeader, ContentModel), DecodeError>(
            (o.header, o.content@),
        ),
{
    let body = content_encoding(o.content@);
    lemma_parse_header_encoding(o.header, body);
    let e = o.encoded();
    assert(e.subrange(o.header.encoding().len() as int, o.header.encoding().len() + body.len() as int)
        =~= body);
    commit_content_round_trip(o.content@);
}

} // verus!
