//! The wire codec: an [`Instance`] is written as a `key=value` query string,
//! pairs separated by `&`, values percent-escaped, the metadata mapping
//! carried as one JSON object value. Field order is fixed: `zone`, `env`,
//! `appid`, `hostname`, one pair per address, `version`, `metadata`.
use crate::escape::ascii_bytes;
use crate::escape::escape_bytes;
use crate::escape::escape_byte;
use crate::escape::escape_into;
use crate::escape::lemma_ascii_bytes_utf8;
use crate::escape::escape_str;
use crate::escape::is_hex_digit;
use crate::escape::is_hex_digit_exec;
use crate::escape::lemma_escape_bytes_shape;
use crate::escape::lemma_unescape_escape_str;
use crate::escape::lemma_well_escaped_concat;
use crate::escape::string_from_utf8;
use crate::escape::unescape_bytes;
use crate::escape::unescape_range;
use crate::escape::utf8_check;
use crate::escape::well_escaped;
use crate::pairs_model;
use crate::strs_model;
use crate::Instance;
use crate::InstanceModel;
use vstd::prelude::*;
use vstd::utf8::*;

verus! {

/// The pair separator.
pub open spec fn amp_b() -> u8 {
    '&' as u8
}

/// The key-value separator.
pub open spec fn eq_b() -> u8 {
    '=' as u8
}

pub open spec fn kb_zone() -> Seq<u8> {
    seq![('z' as u8), ('o' as u8), ('n' as u8), ('e' as u8)]
}

pub open spec fn kb_env() -> Seq<u8> {
    seq![('e' as u8), ('n' as u8), ('v' as u8)]
}

pub open spec fn kb_appid() -> Seq<u8> {
    seq![('a' as u8), ('p' as u8), ('p' as u8), ('i' as u8), ('d' as u8)]
}

pub open spec fn kb_hostname() -> Seq<u8> {
    seq![
        ('h' as u8),
        ('o' as u8),
        ('s' as u8),
        ('t' as u8),
        ('n' as u8),
        ('a' as u8),
        ('m' as u8),
        ('e' as u8),
    ]
}

pub open spec fn kb_addrs() -> Seq<u8> {
    seq![('a' as u8), ('d' as u8), ('d' as u8), ('r' as u8), ('s' as u8)]
}

pub open spec fn kb_version() -> Seq<u8> {
    seq![('v' as u8), ('e' as u8), ('r' as u8), ('s' as u8), ('i' as u8), ('o' as u8), ('n' as u8)]
}

pub open spec fn kb_metadata() -> Seq<u8> {
    seq![
        ('m' as u8),
        ('e' as u8),
        ('t' as u8),
        ('a' as u8),
        ('d' as u8),
        ('a' as u8),
        ('t' as u8),
        ('a' as u8),
    ]
}

/// A byte string usable as a key: ASCII with no separator and no `%`.
pub open spec fn key_free(k: Seq<u8>) -> bool {
    forall|i: int|
        0 <= i < k.len() ==> #[trigger] k[i] != amp_b() && k[i] != eq_b() && k[i] != ('%' as u8)
            && k[i] < 0x80
}

pub proof fn lemma_keys_free()
    ensures
        key_free(kb_zone()),
        key_free(kb_env()),
        key_free(kb_appid()),
        key_free(kb_hostname()),
        key_free(kb_addrs()),
        key_free(kb_version()),
        key_free(kb_metadata()),
{
}

/// Splitting a byte string on `&`: the empty string gives one empty piece, so
/// the result always has at least one piece.
pub open spec fn split_amp(s: Seq<u8>) -> Seq<Seq<u8>>
    decreases s.len(),
{
    if s.len() == 0 {
        seq![Seq::<u8>::empty()]
    } else if s[0] == amp_b() {
        seq![Seq::<u8>::empty()] + split_amp(s.drop_first())
    } else {
        let r = split_amp(s.drop_first());
        seq![seq![s[0]] + r[0]] + r.drop_first()
    }
}

/// Splitting a pair on its first `=`: a pair without one has an empty value.
pub open spec fn split_eq(p: Seq<u8>) -> (Seq<u8>, Seq<u8>)
    decreases p.len(),
{
    if p.len() == 0 {
        (Seq::<u8>::empty(), Seq::<u8>::empty())
    } else if p[0] == eq_b() {
        (Seq::<u8>::empty(), p.drop_first())
    } else {
        let r = split_eq(p.drop_first());
        (seq![p[0]] + r.0, r.1)
    }
}

/// Joining pieces with `&`, the inverse of [`split_amp`] on `&`-free pieces.
pub open spec fn join_amp(ps: Seq<Seq<u8>>) -> Seq<u8>
    decreases ps.len(),
{
    if ps.len() == 0 {
        Seq::<u8>::empty()
    } else if ps.len() == 1 {
        ps[0]
    } else {
        ps[0] + seq![amp_b()] + join_amp(ps.drop_first())
    }
}

/// True when no byte of `s` is the pair separator.
pub open spec fn amp_free(s: Seq<u8>) -> bool {
    forall|i: int| 0 <= i < s.len() ==> #[trigger] s[i] != amp_b()
}

/// True when no byte of `s` is the key-value separator.
pub open spec fn eq_free(s: Seq<u8>) -> bool {
    forall|i: int| 0 <= i < s.len() ==> #[trigger] s[i] != eq_b()
}

pub proof fn lemma_split_amp_len(s: Seq<u8>)
    ensures
        split_amp(s).len() >= 1,
    decreases s.len(),
{
    if s.len() == 0 {
    } else {
        lemma_split_amp_len(s.drop_first());
    }
}

/// A separator-free string splits into itself alone.
pub proof fn lemma_split_amp_whole(s: Seq<u8>)
    requires
        amp_free(s),
    ensures
        split_amp(s) == seq![s],
    decreases s.len(),
{
    if s.len() == 0 {
        assert(split_amp(s) =~~= seq![s]);
    } else {
        let t = s.drop_first();
        assert(amp_free(t)) by {
            assert(forall|i: int| 0 <= i < t.len() ==> #[trigger] t[i] == s[i + 1]);
        }
        lemma_split_amp_whole(t);
        let r = split_amp(t);
        assert(r[0] == t);
        assert(r.drop_first() =~= Seq::<Seq<u8>>::empty());
        assert(seq![s[0]] + t =~= s);
        assert(split_amp(s) =~~= seq![s]);
    }
}

/// Splitting starts with the first separator-free piece.
pub proof fn lemma_split_amp_step(a: Seq<u8>, b: Seq<u8>)
    requires
        amp_free(a),
    ensures
        split_amp(a + seq![amp_b()] + b) == seq![a] + split_amp(b),
    decreases a.len(),
{
    if a.len() == 0 {
        let s = a + seq![amp_b()] + b;
        assert(s.len() >= 1 && s[0] == amp_b());
        assert(s.drop_first() =~= b);
        assert(a =~= Seq::<u8>::empty());
        assert(split_amp(s) =~~= seq![a] + split_amp(b));
    } else {
        let t = a.drop_first();
        assert(amp_free(t)) by {
            assert(forall|i: int| 0 <= i < t.len() ==> #[trigger] t[i] == a[i + 1]);
        }
        lemma_split_amp_step(t, b);
        let s = a + seq![amp_b()] + b;
        assert(s[0] == a[0] && a[0] != amp_b());
        assert(s.drop_first() =~= t + seq![amp_b()] + b);
        let r = split_amp(s.drop_first());
        assert(r == seq![t] + split_amp(b));
        assert(r[0] == t);
        assert(r.drop_first() =~= split_amp(b));
        assert(seq![s[0]] + t =~= a);
        assert(split_amp(s) =~~= seq![a] + split_amp(b));
    }
}

/// Splitting on `&` inverts joining of separator-free pieces.
pub proof fn lemma_split_amp_join(ps: Seq<Seq<u8>>)
    requires
        ps.len() >= 1,
        forall|i: int| 0 <= i < ps.len() ==> amp_free(#[trigger] ps[i]),
    ensures
        split_amp(join_amp(ps)) == ps,
    decreases ps.len(),
{
    if ps.len() == 1 {
        lemma_split_amp_whole(ps[0]);
        assert(split_amp(join_amp(ps)) =~= ps);
    } else {
        let t = ps.drop_first();
        lemma_split_amp_join(t);
        lemma_split_amp_step(ps[0], join_amp(t));
        assert(split_amp(join_amp(ps)) =~= seq![ps[0]] + t);
        assert(seq![ps[0]] + t =~= ps);
    }
}

/// Splitting a pair at its first `=` recovers an `=`-free key and the value.
pub proof fn lemma_split_eq_at(k: Seq<u8>, v: Seq<u8>)
    requires
        eq_free(k),
    ensures
        split_eq(k + seq![eq_b()] + v) == (k, v),
    decreases k.len(),
{
    if k.len() == 0 {
        let p = k + seq![eq_b()] + v;
        assert(p[0] == eq_b());
        assert(p.drop_first() =~= v);
        assert(split_eq(p).0 =~= k);
    } else {
        let t = k.drop_first();
        assert(eq_free(t)) by {
            assert(forall|i: int| 0 <= i < t.len() ==> #[trigger] t[i] == k[i + 1]);
        }
        lemma_split_eq_at(t, v);
        let p = k + seq![eq_b()] + v;
        assert(p[0] == k[0] && k[0] != eq_b());
        assert(p.drop_first() =~= t + seq![eq_b()] + v);
        assert(seq![p[0]] + t =~= k);
        assert(split_eq(p).0 =~= k);
    }
}

/// The running state of a scan over decoded pairs: the five scalar fields,
/// the addresses in encounter order, and the decoded (still unparsed) values
/// of the `metadata` pairs seen, in order.
#[verifier::ext_equal]
pub ghost struct ScanFields {
    pub zone: Seq<char>,
    pub env: Seq<char>,
    pub appid: Seq<char>,
    pub hostname: Seq<char>,
    pub version: Seq<char>,
    pub addrs: Seq<Seq<char>>,
    pub metas: Seq<Seq<char>>,
}

pub open spec fn scan_init() -> ScanFields {
    ScanFields {
        zone: Seq::empty(),
        env: Seq::empty(),
        appid: Seq::empty(),
        hostname: Seq::empty(),
        version: Seq::empty(),
        addrs: Seq::empty(),
        metas: Seq::empty(),
    }
}

/// A pair's value, unescaped and read as UTF-8; `None` on invalid UTF-8.
pub open spec fn decode_value(v: Seq<u8>) -> Option<Seq<char>> {
    if valid_utf8(unescape_bytes(v)) {
        Some(decode_utf8(unescape_bytes(v)))
    } else {
        None
    }
}

/// One pair applied to the scan state: recognised keys set their field,
/// `addrs` accumulates, unrecognised keys change nothing.
pub open spec fn apply_pair(f: ScanFields, p: Seq<u8>) -> Option<ScanFields> {
    let (k, v) = split_eq(p);
    match decode_value(v) {
        None => None,
        Some(dv) => Some(
            if k == kb_zone() {
                ScanFields { zone: dv, ..f }
            } else if k == kb_env() {
                ScanFields { env: dv, ..f }
            } else if k == kb_appid() {
                ScanFields { appid: dv, ..f }
            } else if k == kb_hostname() {
                ScanFields { hostname: dv, ..f }
            } else if k == kb_addrs() {
                ScanFields { addrs: f.addrs.push(dv), ..f }
            } else if k == kb_version() {
                ScanFields { version: dv, ..f }
            } else if k == kb_metadata() {
                ScanFields { metas: f.metas.push(dv), ..f }
            } else {
                f
            },
        ),
    }
}

/// The scan over all pairs, left to right; `None` once any value is rejected.
pub open spec fn scan_pairs(ps: Seq<Seq<u8>>) -> Option<ScanFields>
    decreases ps.len(),
{
    if ps.len() == 0 {
        Some(scan_init())
    } else {
        match scan_pairs(ps.drop_last()) {
            None => None,
            Some(f) => apply_pair(f, ps.last()),
        }
    }
}

/// A failed scan stays failed under more pairs; a successful one only ever
/// appends `metadata` values, so the earlier ones stay a prefix.
pub proof fn lemma_scan_extend(ps: Seq<Seq<u8>>, qs: Seq<Seq<u8>>)
    ensures
        scan_pairs(ps) is None ==> scan_pairs(ps + qs) is None,
        scan_pairs(ps) matches Some(f) ==> (scan_pairs(ps + qs) matches Some(g) ==> f.metas.len()
            <= g.metas.len() && f.metas == g.metas.take(f.metas.len() as int)),
    decreases qs.len(),
{
    if qs.len() == 0 {
        assert(ps + qs =~= ps);
        match scan_pairs(ps) {
            Some(f) => {
                assert(f.metas =~= f.metas.take(f.metas.len() as int));
            },
            None => {},
        }
    } else {
        lemma_scan_extend(ps, qs.drop_last());
        assert((ps + qs).drop_last() =~= ps + qs.drop_last());
        assert((ps + qs).last() == qs.last());
        match (scan_pairs(ps), scan_pairs(ps + qs.drop_last()), scan_pairs(ps + qs)) {
            (Some(f), Some(g0), Some(g)) => {
                assert(g.metas == g0.metas || g.metas == g0.metas.push(
                    decode_value(split_eq(qs.last()).1).unwrap(),
                ));
                assert(f.metas =~= g.metas.take(f.metas.len() as int)) by {
                    assert(f.metas == g0.metas.take(f.metas.len() as int));
                }
            },
            _ => {},
        }
    }
}

/// What serde_json writes for a string-to-string mapping, given as key-sorted
/// pairs: the JSON object text, a function of the pairs alone.
pub uninterp spec fn json_of(m: Seq<(Seq<char>, Seq<char>)>) -> Seq<char>;

/// Whether serde_json reads a text as a JSON object of strings: the outcome
/// of the parse, a function of the text alone.
pub uninterp spec fn json_parses(s: Seq<char>) -> bool;

/// Strict lexicographic order on byte strings.
pub open spec fn lex_lt(a: Seq<u8>, b: Seq<u8>) -> bool
    decreases a.len(),
{
    if b.len() == 0 {
        false
    } else if a.len() == 0 {
        true
    } else if a[0] < b[0] {
        true
    } else if a[0] > b[0] {
        false
    } else {
        lex_lt(a.drop_first(), b.drop_first())
    }
}

/// The order of `String` keys as a map of std orders them: lexicographic on
/// their UTF-8 bytes.
pub open spec fn key_lt(a: Seq<char>, b: Seq<char>) -> bool {
    lex_lt(encode_utf8(a), encode_utf8(b))
}

/// True when the pairs are strictly ascending by key, so each key is unique.
pub open spec fn sorted_pairs(m: Seq<(Seq<char>, Seq<char>)>) -> bool {
    forall|i: int, j: int|
        #![trigger m[i], m[j]]
        0 <= i < j < m.len() ==> key_lt(m[i].0, m[j].0)
}

/// One `key=value` pair of the wire form.
pub open spec fn pair_of(key: Seq<u8>, value: Seq<char>) -> Seq<u8> {
    key + seq![eq_b()] + escape_str(value)
}

/// The address pairs, one per address, in the instance's order.
pub open spec fn addr_pairs(addrs: Seq<Seq<char>>) -> Seq<Seq<u8>> {
    addrs.map_values(|a: Seq<char>| pair_of(kb_addrs(), a))
}

/// The pairs of the wire form of an instance, in their fixed order.
pub open spec fn encoded_pairs(x: InstanceModel) -> Seq<Seq<u8>> {
    seq![
        pair_of(kb_zone(), x.zone),
        pair_of(kb_env(), x.env),
        pair_of(kb_appid(), x.appid),
        pair_of(kb_hostname(), x.hostname),
    ] + addr_pairs(x.addrs) + seq![
        pair_of(kb_version(), x.version),
        pair_of(kb_metadata(), json_of(x.metadata)),
    ]
}

/// The wire form of an instance.
pub open spec fn encoded(x: InstanceModel) -> Seq<u8> {
    join_amp(encoded_pairs(x))
}

/// The address section of the flattened wire form: `&addrs=` then the escaped
/// address, once per address.
pub open spec fn addrs_flat(addrs: Seq<Seq<char>>) -> Seq<u8>
    decreases addrs.len(),
{
    if addrs.len() == 0 {
        Seq::<u8>::empty()
    } else {
        seq![amp_b()] + pair_of(kb_addrs(), addrs[0]) + addrs_flat(addrs.drop_first())
    }
}

/// The two keys of equal length differ.
pub proof fn lemma_keys_distinct()
    ensures
        kb_addrs() != kb_appid(),
        kb_metadata() != kb_hostname(),
{
    assert(kb_addrs()[1] != kb_appid()[1]);
    assert(kb_metadata()[0] != kb_hostname()[0]);
}

/// Shape of one pair: separator-free but for the one `=` after its key, well
/// escaped, all ASCII, and its parts recoverable.
pub proof fn lemma_pair_props(key: Seq<u8>, v: Seq<char>)
    requires
        key_free(key),
    ensures
        amp_free(pair_of(key, v)),
        well_escaped(pair_of(key, v)),
        ascii_bytes(pair_of(key, v)),
        split_eq(pair_of(key, v)) == (key, escape_str(v)),
        decode_value(escape_str(v)) == Some(v),
{
    lemma_escape_bytes_shape(encode_utf8(v));
    lemma_unescape_escape_str(v);
    let p = pair_of(key, v);
    let e = escape_str(v);
    assert forall|i: int| 0 <= i < p.len() implies #[trigger] p[i] != amp_b() && p[i] < 0x80 by {
        if i < key.len() {
            assert(p[i] == key[i]);
        } else if i == key.len() {
            assert(p[i] == eq_b());
        } else {
            assert(p[i] == e[i - key.len() - 1]);
        }
    }
    assert(well_escaped(key + seq![eq_b()])) by {
        assert(forall|i: int|
            0 <= i < (key + seq![eq_b()]).len() ==> #[trigger] (key + seq![eq_b()])[i] != (
            '%' as u8));
    }
    lemma_well_escaped_concat(key + seq![eq_b()], e);
    assert(key + seq![eq_b()] + e =~= (key + seq![eq_b()]) + e);
    assert(eq_free(key));
    lemma_split_eq_at(key, e);
}

/// Joining well-escaped ASCII pieces yields a well-escaped ASCII string.
pub proof fn lemma_join_props(ps: Seq<Seq<u8>>)
    requires
        forall|i: int|
            0 <= i < ps.len() ==> well_escaped(#[trigger] ps[i]) && ascii_bytes(ps[i]),
    ensures
        well_escaped(join_amp(ps)),
        ascii_bytes(join_amp(ps)),
    decreases ps.len(),
{
    if ps.len() <= 1 {
    } else {
        let t = ps.drop_first();
        assert(forall|i: int|
            0 <= i < t.len() ==> well_escaped(#[trigger] t[i]) && ascii_bytes(t[i])) by {
            assert(forall|i: int| 0 <= i < t.len() ==> #[trigger] t[i] == ps[i + 1]);
        }
        lemma_join_props(t);
        let head = ps[0];
        let rest = seq![amp_b()] + join_amp(t);
        assert(well_escaped(rest)) by {
            lemma_well_escaped_concat(seq![amp_b()], join_amp(t));
            assert(well_escaped(seq![amp_b()])) by {
                assert(seq![amp_b()][0] != ('%' as u8));
            }
        }
        lemma_well_escaped_concat(head, rest);
        assert(join_amp(ps) =~= head + rest);
        assert(ascii_bytes(join_amp(ps)));
    }
}

/// Every pair of the wire form is well escaped, ASCII, and `&`-free.
pub proof fn lemma_encoded_pairs_props(x: InstanceModel)
    ensures
        forall|i: int|
            0 <= i < encoded_pairs(x).len() ==> amp_free(#[trigger] encoded_pairs(x)[i])
                && well_escaped(encoded_pairs(x)[i]) && ascii_bytes(encoded_pairs(x)[i]),
{
    lemma_keys_free();
    lemma_pair_props(kb_zone(), x.zone);
    lemma_pair_props(kb_env(), x.env);
    lemma_pair_props(kb_appid(), x.appid);
    lemma_pair_props(kb_hostname(), x.hostname);
    lemma_pair_props(kb_version(), x.version);
    lemma_pair_props(kb_metadata(), json_of(x.metadata));
    let ps = encoded_pairs(x);
    assert forall|i: int|
        0 <= i < ps.len() implies amp_free(#[trigger] ps[i]) && well_escaped(ps[i]) && ascii_bytes(
        ps[i]) by {
        if 4 <= i < 4 + x.addrs.len() {
            assert(ps[i] == addr_pairs(x.addrs)[i - 4]);
            assert(addr_pairs(x.addrs)[i - 4] == pair_of(kb_addrs(), x.addrs[i - 4]));
            lemma_pair_props(kb_addrs(), x.addrs[i - 4]);
        } else if i >= 4 + x.addrs.len() {
            assert(ps[i] == seq![
                pair_of(kb_version(), x.version),
                pair_of(kb_metadata(), json_of(x.metadata)),
            ][i - 4 - x.addrs.len()]);
        }
    }
}

/// The wire form is valid UTF-8 (it is all ASCII) and well escaped, and it
/// splits on `&` back into its pairs.
pub proof fn lemma_encoded_shape(x: InstanceModel)
    ensures
        ascii_bytes(encoded(x)),
        valid_utf8(encoded(x)),
        well_escaped(encoded(x)),
        split_amp(encoded(x)) == encoded_pairs(x),
{
    lemma_encoded_pairs_props(x);
    lemma_join_props(encoded_pairs(x));
    lemma_ascii_bytes_utf8(encoded(x));
    lemma_split_amp_join(encoded_pairs(x));
}

/// Scanning the wire form's pairs recovers every field of the instance, and
/// exactly one `metadata` pair, carrying the mapping's JSON text.
#[verifier::rlimit(60)]
pub proof fn lemma_scan_encoded(x: InstanceModel)
    ensures
        scan_pairs(encoded_pairs(x)) matches Some(f) && f.zone == x.zone && f.env == x.env
            && f.appid == x.appid && f.hostname == x.hostname && f.version == x.version && f.addrs
            == x.addrs && f.metas == seq![json_of(x.metadata)],
{
    lemma_keys_free();
    lemma_keys_distinct();
    let p1 = pair_of(kb_zone(), x.zone);
    let p2 = pair_of(kb_env(), x.env);
    let p3 = pair_of(kb_appid(), x.appid);
    let p4 = pair_of(kb_hostname(), x.hostname);
    let p5 = pair_of(kb_version(), x.version);
    let p6 = pair_of(kb_metadata(), json_of(x.metadata));
    lemma_pair_props(kb_zone(), x.zone);
    lemma_pair_props(kb_env(), x.env);
    lemma_pair_props(kb_appid(), x.appid);
    lemma_pair_props(kb_hostname(), x.hostname);
    lemma_pair_props(kb_version(), x.version);
    lemma_pair_props(kb_metadata(), json_of(x.metadata));
    let s0 = Seq::<Seq<u8>>::empty();
    let s1 = seq![p1];
    let s2 = seq![p1, p2];
    let s3 = seq![p1, p2, p3];
    let s4 = seq![p1, p2, p3, p4];
    assert(scan_pairs(s0) == Some(scan_init()));
    assert(s1.drop_last() =~= s0);
    let f1 = ScanFields { zone: x.zone, ..scan_init() };
    assert(scan_pairs(s1) == Some(f1));
    assert(s2.drop_last() =~= s1);
    let f2 = ScanFields { env: x.env, ..f1 };
    assert(scan_pairs(s2) == Some(f2));
    assert(s3.drop_last() =~= s2);
    let f3 = ScanFields { appid: x.appid, ..f2 };
    assert(scan_pairs(s3) == Some(f3));
    assert(s4.drop_last() =~= s3);
    let f4 = ScanFields { hostname: x.hostname, ..f3 };
    assert(scan_pairs(s4) == Some(f4));
    lemma_scan_addrs(s4, f4, x.addrs);
    let sa = s4 + addr_pairs(x.addrs);
    let fa = ScanFields { addrs: f4.addrs + x.addrs, ..f4 };
    assert(scan_pairs(sa) == Some(fa));
    assert(fa.addrs =~= x.addrs);
    let s5 = sa + seq![p5];
    assert(s5.drop_last() =~= sa);
    assert(s5.last() == p5);
    let f5 = ScanFields { version: x.version, ..fa };
    assert(scan_pairs(s5) == Some(f5));
    let s6 = s5 + seq![p6];
    assert(s6.drop_last() =~= s5);
    assert(s6.last() == p6);
    let f6 = ScanFields { metas: f5.metas.push(json_of(x.metadata)), ..f5 };
    assert(scan_pairs(s6) == Some(f6));
    assert(f6.metas =~= seq![json_of(x.metadata)]);
    assert(encoded_pairs(x) =~= s6);
}

/// The address section distributes over concatenation.
proof fn lemma_addrs_flat_concat(u: Seq<Seq<char>>, w: Seq<Seq<char>>)
    ensures
        addrs_flat(u + w) == addrs_flat(u) + addrs_flat(w),
    decreases u.len(),
{
    if u.len() == 0 {
        assert(u + w =~= w);
        assert(addrs_flat(u) + addrs_flat(w) =~= addrs_flat(w));
    } else {
        lemma_addrs_flat_concat(u.drop_first(), w);
        assert((u + w).drop_first() =~= u.drop_first() + w);
        assert(addrs_flat(u + w) =~= addrs_flat(u) + addrs_flat(w));
    }
}

/// One more address extends the address section by its pair.
pub proof fn lemma_addrs_flat_step(s: Seq<Seq<char>>, i: int)
    requires
        0 <= i < s.len(),
    ensures
        addrs_flat(s.take(i + 1)) == addrs_flat(s.take(i)) + (seq![amp_b()] + pair_of(
            kb_addrs(),
            s[i],
        )),
{
    assert(s.take(i + 1) =~= s.take(i) + seq![s[i]]);
    lemma_addrs_flat_concat(s.take(i), seq![s[i]]);
    let single = seq![s[i]];
    assert(single.drop_first() =~= Seq::<Seq<char>>::empty());
    assert(addrs_flat(single) == seq![amp_b()] + pair_of(kb_addrs(), single[0]) + addrs_flat(
        single.drop_first(),
    ));
    assert(addrs_flat(Seq::<Seq<char>>::empty()) =~= Seq::<u8>::empty());
    assert(addrs_flat(single) =~= seq![amp_b()] + pair_of(kb_addrs(), s[i]));
}

/// Joining a head, the address pairs, and a non-empty tail flattens the
/// address section in place.
proof fn lemma_join_head_addrs(h: Seq<u8>, addrs: Seq<Seq<char>>, tail: Seq<Seq<u8>>)
    requires
        tail.len() >= 1,
    ensures
        join_amp(seq![h] + addr_pairs(addrs) + tail) == h + addrs_flat(addrs) + seq![amp_b()]
            + join_amp(tail),
    decreases addrs.len(),
{
    if addrs.len() == 0 {
        let s = seq![h] + addr_pairs(addrs) + tail;
        assert(s =~= seq![h] + tail);
        assert(s[0] == h);
        assert(s.drop_first() =~= tail);
        assert(join_amp(s) =~= h + addrs_flat(addrs) + seq![amp_b()] + join_amp(tail));
    } else {
        let a0 = addrs[0];
        let rest = addrs.drop_first();
        lemma_join_head_addrs(pair_of(kb_addrs(), a0), rest, tail);
        let s = seq![h] + addr_pairs(addrs) + tail;
        assert(s[0] == h);
        assert(s.drop_first() =~= seq![pair_of(kb_addrs(), a0)] + addr_pairs(rest) + tail) by {
            assert(addr_pairs(addrs).drop_first() =~= addr_pairs(rest));
            assert(addr_pairs(addrs)[0] == pair_of(kb_addrs(), a0));
        }
        assert(s.len() >= 2);
        assert(join_amp(s) == h + seq![amp_b()] + join_amp(s.drop_first()));
        assert(addrs_flat(addrs) == seq![amp_b()] + pair_of(kb_addrs(), a0) + addrs_flat(rest));
        assert(join_amp(s) =~= h + addrs_flat(addrs) + seq![amp_b()] + join_amp(tail));
    }
}

/// The wire form written out flat: the fixed field order is visible, each
/// field introduced by its literal key, the address section in the middle.
#[verifier::rlimit(60)]
pub proof fn lemma_encoded_flat(x: InstanceModel)
    ensures
        encoded(x) == pair_of(kb_zone(), x.zone) + seq![amp_b()] + pair_of(kb_env(), x.env) + seq![
            amp_b(),
        ] + pair_of(kb_appid(), x.appid) + seq![amp_b()] + pair_of(kb_hostname(), x.hostname)
            + addrs_flat(x.addrs) + seq![amp_b()] + pair_of(kb_version(), x.version) + seq![
            amp_b(),
        ] + pair_of(kb_metadata(), json_of(x.metadata)),
{
    let p1 = pair_of(kb_zone(), x.zone);
    let p2 = pair_of(kb_env(), x.env);
    let p3 = pair_of(kb_appid(), x.appid);
    let p4 = pair_of(kb_hostname(), x.hostname);
    let p5 = pair_of(kb_version(), x.version);
    let p6 = pair_of(kb_metadata(), json_of(x.metadata));
    let ps = encoded_pairs(x);
    let r1 = seq![p2, p3, p4] + addr_pairs(x.addrs) + seq![p5, p6];
    let r2 = seq![p3, p4] + addr_pairs(x.addrs) + seq![p5, p6];
    let r3 = seq![p4] + addr_pairs(x.addrs) + seq![p5, p6];
    assert(ps[0] == p1 && ps.drop_first() =~= r1);
    assert(ps.len() >= 2);
    assert(join_amp(ps) == p1 + seq![amp_b()] + join_amp(r1));
    assert(r1[0] == p2 && r1.drop_first() =~= r2 && r1.len() >= 2);
    assert(join_amp(r1) == p2 + seq![amp_b()] + join_amp(r2));
    assert(r2[0] == p3 && r2.drop_first() =~= r3 && r2.len() >= 2);
    assert(join_amp(r2) == p3 + seq![amp_b()] + join_amp(r3));
    lemma_join_head_addrs(p4, x.addrs, seq![p5, p6]);
    assert(join_amp(seq![p5, p6]) == p5 + seq![amp_b()] + join_amp(seq![p5, p6].drop_first()));
    assert(seq![p5, p6].drop_first() =~= seq![p6]);
    assert(join_amp(seq![p6]) == p6);
    assert(encoded(x) =~= p1 + seq![amp_b()] + p2 + seq![amp_b()] + p3 + seq![amp_b()] + p4
        + addrs_flat(x.addrs) + seq![amp_b()] + p5 + seq![amp_b()] + p6);
}

/// Address pairs scan to the addresses, appended in order.
proof fn lemma_scan_addrs(front: Seq<Seq<u8>>, f: ScanFields, addrs: Seq<Seq<char>>)
    requires
        scan_pairs(front) == Some(f),
    ensures
        scan_pairs(front + addr_pairs(addrs)) == Some(ScanFields { addrs: f.addrs + addrs, ..f }),
    decreases addrs.len(),
{
    lemma_keys_free();
    lemma_keys_distinct();
    if addrs.len() == 0 {
        assert(front + addr_pairs(addrs) =~= front);
        assert(ScanFields { addrs: f.addrs + addrs, ..f } =~= f);
    } else {
        let rest = addrs.drop_last();
        lemma_scan_addrs(front, f, rest);
        let whole = front + addr_pairs(addrs);
        assert(whole.drop_last() =~= front + addr_pairs(rest));
        assert(whole.last() == pair_of(kb_addrs(), addrs.last()));
        lemma_pair_props(kb_addrs(), addrs.last());
        let g = ScanFields { addrs: f.addrs + rest, ..f };
        assert(scan_pairs(whole) == apply_pair(g, pair_of(kb_addrs(), addrs.last())));
        assert(scan_pairs(whole) matches Some(h) && h =~= ScanFields {
            addrs: f.addrs + addrs,
            ..f
        }) by {
            assert((f.addrs + rest).push(addrs.last()) =~= f.addrs + addrs);
        }
    }
}

/// What can go wrong in the default codec: bytes that are not valid UTF-8 (a
/// malformed percent escape counts as such), or metadata that the JSON layer
/// rejects.
#[derive(Debug, Clone, Copy, PartialEq, Eq, Structural)]
pub enum DefaultCodecError {
    UTF8,
    MetadataSerde,
}

/// The error of an encoder, with all detail erased.
pub struct EncodeError {}

/// The error of a decoder, with all detail erased.
pub struct DecodeErorr {}

/// A pluggable encoder: what it produces on success is the function
/// [`Encoder::model`] of the instance alone.
pub trait Encoder {
    type Error;

    /// The instances the encoder is specified on.
    spec fn valid_input(&self, ins: InstanceModel) -> bool;

    /// The wire form produced on success.
    spec fn model(&self, ins: InstanceModel) -> Seq<u8>;

    /// What holds of the outcome beyond the wire form.
    spec fn post(&self, ins: InstanceModel, r: Result<Vec<u8>, Self::Error>) -> bool;

    fn encode(&self, ins: &Instance) -> (r: Result<Vec<u8>, Self::Error>)
        requires
            self.valid_input(ins@),
        ensures
            (r matches Ok(b) ==> b@ == self.model(ins@)),
            self.post(ins@, r),
    ;
}

/// A pluggable decoder, specified by the relation [`Decoder::post`] between
/// the input bytes and the outcome.
pub trait Decoder {
    type Error;

    /// What holds of the outcome of decoding the given bytes.
    spec fn post(&self, data: Seq<u8>, r: Result<Instance, Self::Error>) -> bool;

    fn decode(&self, data: &[u8]) -> (r: Result<Instance, Self::Error>)
        ensures
            self.post(data@, r),
    ;
}

/// An encoder-decoder pair.
pub struct Codec<E, D> {
    encoder: E,
    decoder: D,
}

impl<E, D> Codec<E, D> where E: Encoder, D: Decoder {
    pub closed spec fn spec_encoder(self) -> E {
        self.encoder
    }

    pub closed spec fn spec_decoder(self) -> D {
        self.decoder
    }

    pub fn new(encoder: E, decoder: D) -> (r: Self)
        ensures
            r.spec_encoder() == encoder,
            r.spec_decoder() == decoder,
    {
        Self { encoder, decoder }
    }

    pub fn get_encoder_ref(&self) -> (r: &E)
        ensures
            *r == self.spec_encoder(),
    {
        &self.encoder
    }

    pub fn get_decoder_ref(&self) -> (r: &D)
        ensures
            *r == self.spec_decoder(),
    {
        &self.decoder
    }
}

/// Relies on serde_json::to_string of a std BTreeMap built from the pairs:
/// the JSON object text of the mapping, a function of the pairs alone; the
/// pairs are handed over key-sorted and distinct, so the map holds exactly
/// them. Serializing a map of strings into a byte buffer cannot fail, so a
/// text is always returned.
#[verifier::external_body]
fn json_encode_pairs(m: &Vec<(String, String)>) -> (r: Option<String>)
    requires
        sorted_pairs(pairs_model(m@)),
    ensures
        r is Some,
        r matches Some(s) ==> s@ == json_of(pairs_model(m@)),
{
    let map: std::collections::BTreeMap<&str, &str> =
        m.iter().map(|p| (p.0.as_str(), p.1.as_str())).collect();
    serde_json::to_string(&map).ok()
}

/// Relies on serde_json::from_str into a std BTreeMap of strings: whether the
/// parse succeeds depends on the text alone ([`json_parses`]); parsing the
/// serialization of a string-to-string mapping yields that mapping back (so a
/// failed parse means the text is the serialization of no mapping); and the
/// map iterates ascending by key.
#[verifier::external_body]
fn json_parse_pairs(s: &str) -> (r: Option<Vec<(String, String)>>)
    ensures
        (r is Some) == json_parses(s@),
        (r matches Some(v) ==> sorted_pairs(pairs_model(v@))),
        match r {
            Some(v) => forall|m: Seq<(Seq<char>, Seq<char>)>|
                sorted_pairs(m) && s@ == #[trigger] json_of(m) ==> pairs_model(v@) == m,
            None => forall|m: Seq<(Seq<char>, Seq<char>)>|
                sorted_pairs(m) ==> s@ != #[trigger] json_of(m),
        },
{
    let map: std::collections::BTreeMap<String, String> = serde_json::from_str(s).ok()?;
    Some(map.into_iter().collect())
}

fn push_pair_zone(out: &mut Vec<u8>, v: &str)
    ensures
        final(out)@ == old(out)@ + pair_of(kb_zone(), v@),
{
    out.push('z' as u8);
    out.push('o' as u8);
    out.push('n' as u8);
    out.push('e' as u8);
    out.push('=' as u8);
    assert(out@ =~= old(out)@ + (kb_zone() + seq![eq_b()]));
    escape_into(out, v);
    assert(out@ =~= old(out)@ + pair_of(kb_zone(), v@));
}

fn push_pair_env(out: &mut Vec<u8>, v: &str)
    ensures
        final(out)@ == old(out)@ + pair_of(kb_env(), v@),
{
    out.push('e' as u8);
    out.push('n' as u8);
    out.push('v' as u8);
    out.push('=' as u8);
    assert(out@ =~= old(out)@ + (kb_env() + seq![eq_b()]));
    escape_into(out, v);
    assert(out@ =~= old(out)@ + pair_of(kb_env(), v@));
}

fn push_pair_appid(out: &mut Vec<u8>, v: &str)
    ensures
        final(out)@ == old(out)@ + pair_of(kb_appid(), v@),
{
    out.push('a' as u8);
    out.push('p' as u8);
    out.push('p' as u8);
    out.push('i' as u8);
    out.push('d' as u8);
    out.push('=' as u8);
    assert(out@ =~= old(out)@ + (kb_appid() + seq![eq_b()]));
    escape_into(out, v);
    assert(out@ =~= old(out)@ + pair_of(kb_appid(), v@));
}

fn push_pair_hostname(out: &mut Vec<u8>, v: &str)
    ensures
        final(out)@ == old(out)@ + pair_of(kb_hostname(), v@),
{
    out.push('h' as u8);
    out.push('o' as u8);
    out.push('s' as u8);
    out.push('t' as u8);
    out.push('n' as u8);
    out.push('a' as u8);
    out.push('m' as u8);
    out.push('e' as u8);
    out.push('=' as u8);
    assert(out@ =~= old(out)@ + (kb_hostname() + seq![eq_b()]));
    escape_into(out, v);
    assert(out@ =~= old(out)@ + pair_of(kb_hostname(), v@));
}

fn push_pair_addrs(out: &mut Vec<u8>, v: &str)
    ensures
        final(out)@ == old(out)@ + pair_of(kb_addrs(), v@),
{
    out.push('a' as u8);
    out.push('d' as u8);
    out.push('d' as u8);
    out.push('r' as u8);
    out.push('s' as u8);
    out.push('=' as u8);
    assert(out@ =~= old(out)@ + (kb_addrs() + seq![eq_b()]));
    escape_into(out, v);
    assert(out@ =~= old(out)@ + pair_of(kb_addrs(), v@));
}

fn push_pair_version(out: &mut Vec<u8>, v: &str)
    ensures
        final(out)@ == old(out)@ + pair_of(kb_version(), v@),
{
    out.push('v' as u8);
    out.push('e' as u8);
    out.push('r' as u8);
    out.push('s' as u8);
    out.push('i' as u8);
    out.push('o' as u8);
    out.push('n' as u8);
    out.push('=' as u8);
    assert(out@ =~= old(out)@ + (kb_version() + seq![eq_b()]));
    escape_into(out, v);
    assert(out@ =~= old(out)@ + pair_of(kb_version(), v@));
}

fn push_pair_metadata(out: &mut Vec<u8>, v: &str)
    ensures
        final(out)@ == old(out)@ + pair_of(kb_metadata(), v@),
{
    out.push('m' as u8);
    out.push('e' as u8);
    out.push('t' as u8);
    out.push('a' as u8);
    out.push('d' as u8);
    out.push('a' as u8);
    out.push('t' as u8);
    out.push('a' as u8);
    out.push('=' as u8);
    assert(out@ =~= old(out)@ + (kb_metadata() + seq![eq_b()]));
    escape_into(out, v);
    assert(out@ =~= old(out)@ + pair_of(kb_metadata(), v@));
}

/// The codec's default encoder: the fixed-order query string of the wire
/// form, with percent-escaped values.
pub struct DefaultEncoder;

impl Encoder for DefaultEncoder {
    type Error = DefaultCodecError;

    /// The metadata pairs must be key-sorted and distinct: the one vector
    /// form of a mapping.
    open spec fn valid_input(&self, x: InstanceModel) -> bool {
        sorted_pairs(x.metadata)
    }

    open spec fn model(&self, x: InstanceModel) -> Seq<u8> {
        encoded(x)
    }

    /// Encoding never fails: the metadata's JSON serialization is the only
    /// fallible step, and serializing a map of strings cannot fail.
    open spec fn post(&self, x: InstanceModel, r: Result<Vec<u8>, DefaultCodecError>) -> bool {
        r is Ok
    }

    fn encode(&self, ins: &Instance) -> (r: Result<Vec<u8>, DefaultCodecError>) {
        let ghost x = ins@;
        let mut out: Vec<u8> = Vec::new();
        push_pair_zone(&mut out, ins.zone.as_str());
        out.push('&' as u8);
        push_pair_env(&mut out, ins.env.as_str());
        out.push('&' as u8);
        push_pair_appid(&mut out, ins.appid.as_str());
        out.push('&' as u8);
        push_pair_hostname(&mut out, ins.hostname.as_str());
        let ghost flat4 = pair_of(kb_zone(), x.zone) + seq![amp_b()] + pair_of(kb_env(), x.env)
            + seq![amp_b()] + pair_of(kb_appid(), x.appid) + seq![amp_b()] + pair_of(
            kb_hostname(),
            x.hostname,
        );
        assert(out@ =~= flat4);
        let mut ai: usize = 0;
        let addr_n = ins.addrs.len();
        while ai < addr_n
            invariant
                ai <= addr_n,
                addr_n == ins.addrs@.len(),
                x == ins@,
                x.addrs == strs_model(ins.addrs@),
                out@ == flat4 + addrs_flat(x.addrs.take(ai as int)),
            decreases addr_n - ai,
        {
            out.push('&' as u8);
            push_pair_addrs(&mut out, ins.addrs[ai].as_str());
            proof {
                assert(ins.addrs@[ai as int]@ == x.addrs[ai as int]);
                lemma_addrs_flat_step(x.addrs, ai as int);
                assert(out@ =~= flat4 + addrs_flat(x.addrs.take(ai + 1)));
            }
            ai = ai + 1;
        }
        assert(x.addrs.take(addr_n as int) =~= x.addrs);
        let ghost flat5 = flat4 + addrs_flat(x.addrs);
        assert(out@ =~= flat5);
        out.push('&' as u8);
        push_pair_version(&mut out, ins.version.as_str());
        let ghost flat6 = flat5 + seq![amp_b()] + pair_of(kb_version(), x.version);
        assert(out@ =~= flat6);
        let json = json_encode_pairs(&ins.metadata).unwrap();
        assert(json@ == json_of(x.metadata));
        out.push('&' as u8);
        push_pair_metadata(&mut out, json.as_str());
        proof {
            lemma_encoded_flat(x);
            assert(out@ =~= encoded(x));
        }
        Ok(out)
    }
}


/// A pair without a `=` is all key, with an empty value.
pub proof fn lemma_split_eq_none(s: Seq<u8>)
    requires
        eq_free(s),
    ensures
        split_eq(s) == (s, Seq::<u8>::empty()),
    decreases s.len(),
{
    if s.len() == 0 {
        assert(split_eq(s).0 =~= s);
    } else {
        let t = s.drop_first();
        assert(eq_free(t)) by {
            assert(forall|i: int| 0 <= i < t.len() ==> #[trigger] t[i] == s[i + 1]);
        }
        lemma_split_eq_none(t);
        assert(seq![s[0]] + t =~= s);
        assert(split_eq(s).0 =~= s);
    }
}

/// Splitting distributes over a separator: the pieces of both sides.
pub proof fn lemma_split_amp_concat(s: Seq<u8>, t: Seq<u8>)
    ensures
        split_amp(s + seq![amp_b()] + t) == split_amp(s) + split_amp(t),
    decreases s.len(),
{
    if s.len() == 0 {
        let w = s + seq![amp_b()] + t;
        assert(w[0] == amp_b());
        assert(w.drop_first() =~= t);
        assert(split_amp(w) =~~= split_amp(s) + split_amp(t));
    } else if s[0] == amp_b() {
        lemma_split_amp_concat(s.drop_first(), t);
        let w = s + seq![amp_b()] + t;
        assert(w[0] == amp_b());
        assert(w.drop_first() =~= s.drop_first() + seq![amp_b()] + t);
        assert(split_amp(w) =~~= split_amp(s) + split_amp(t));
    } else {
        lemma_split_amp_concat(s.drop_first(), t);
        let w = s + seq![amp_b()] + t;
        assert(w[0] == s[0]);
        assert(w.drop_first() =~= s.drop_first() + seq![amp_b()] + t);
        let r = split_amp(w.drop_first());
        let rs = split_amp(s.drop_first());
        assert(r == rs + split_amp(t));
        lemma_split_amp_len(s.drop_first());
        assert(r[0] == rs[0]);
        assert(r.drop_first() =~= rs.drop_first() + split_amp(t));
        assert(split_amp(w) =~~= split_amp(s) + split_amp(t));
    }
}

/// What is wrong with one pair, if anything: a value that does not unescape
/// to UTF-8, or a `metadata` value the JSON layer rejects.
pub open spec fn pair_error(p: Seq<u8>) -> Option<DefaultCodecError> {
    let (k, v) = split_eq(p);
    match decode_value(v) {
        None => Some(DefaultCodecError::UTF8),
        Some(dv) => if k == kb_metadata() && !json_parses(dv) {
            Some(DefaultCodecError::MetadataSerde)
        } else {
            None
        },
    }
}

/// The error of the first failing pair, in pair order; `None` when every
/// pair is clean.
pub open spec fn first_error(ps: Seq<Seq<u8>>) -> Option<DefaultCodecError>
    decreases ps.len(),
{
    if ps.len() == 0 {
        None
    } else {
        match first_error(ps.drop_last()) {
            Some(e) => Some(e),
            None => pair_error(ps.last()),
        }
    }
}

/// A failure among the first pairs stays the first failure under more pairs.
pub proof fn lemma_first_error_extend(ps: Seq<Seq<u8>>, qs: Seq<Seq<u8>>)
    ensures
        first_error(ps) matches Some(e) ==> first_error(ps + qs) == Some(e),
    decreases qs.len(),
{
    if qs.len() == 0 {
        assert(ps + qs =~= ps);
    } else {
        lemma_first_error_extend(ps, qs.drop_last());
        assert((ps + qs).drop_last() =~= ps + qs.drop_last());
    }
}

/// The scalar fields of an instance as a scan of its wire form leaves them.
pub open spec fn fields_match(i: InstanceModel, f: ScanFields) -> bool {
    &&& i.zone == f.zone
    &&& i.env == f.env
    &&& i.appid == f.appid
    &&& i.hostname == f.hostname
    &&& i.version == f.version
    &&& i.addrs == f.addrs
}

/// The full contract of the default decoder. Input that is not valid UTF-8,
/// or holds a `%` not followed by two hexadecimal digits, is rejected as
/// `UTF8`. Otherwise the pairs are processed in order and the first failing
/// pair decides the error ([`first_error`]): a value that does not unescape
/// to UTF-8 is `UTF8`, a `metadata` value the JSON layer rejects is
/// `MetadataSerde`; with no failing pair success is owed. On success the scan
/// of the pairs determines every field, the mapping is empty when no
/// `metadata` pair appeared, and it is the mapping whose JSON text the last
/// `metadata` value is, whenever it is one.
pub open spec fn decode_post(data: Seq<u8>, r: Result<Instance, DefaultCodecError>) -> bool {
    if !valid_utf8(data) || !well_escaped(data) {
        r == Err::<Instance, DefaultCodecError>(DefaultCodecError::UTF8)
    } else {
        let ps = split_amp(data);
        match scan_pairs(ps) {
            None => first_error(ps) matches Some(e) && r == Err::<Instance, DefaultCodecError>(e),
            Some(f) => {
                &&& (r matches Ok(i) ==> fields_match(i@, f) && sorted_pairs(i@.metadata) && (
                f.metas.len() == 0 ==> i@.metadata == Seq::<(Seq<char>, Seq<char>)>::empty()))
                &&& match first_error(ps) {
                    Some(e) => r == Err::<Instance, DefaultCodecError>(e),
                    None => r is Ok,
                }
                &&& (r matches Ok(i) ==> (f.metas.len() >= 1 ==> (forall|
                    m: Seq<(Seq<char>, Seq<char>)>,
                |
                    sorted_pairs(m) && f.metas.last() == #[trigger] json_of(m) ==> i@.metadata
                        == m)))
                &&& (f.metas.len() == 1 ==> (forall|m: Seq<(Seq<char>, Seq<char>)>|
                    sorted_pairs(m) && f.metas[0] == #[trigger] json_of(m) ==> r is Ok))
            },
        }
    }
}

/// Which recognised key a byte range holds.
enum KeyKind {
    Zone,
    Env,
    Appid,
    Hostname,
    Addrs,
    Version,
    Metadata,
    Other,
}

fn match_key(data: &[u8], lo: usize, hi: usize) -> (r: KeyKind)
    requires
        lo <= hi <= data@.len(),
    ensures
        ({
            let k = data@.subrange(lo as int, hi as int);
            &&& (r is Zone <==> k == kb_zone())
            &&& (r is Env <==> k == kb_env())
            &&& (r is Appid <==> k == kb_appid())
            &&& (r is Hostname <==> k == kb_hostname())
            &&& (r is Addrs <==> k == kb_addrs())
            &&& (r is Version <==> k == kb_version())
            &&& (r is Metadata <==> k == kb_metadata())
        }),
{
    let ghost k = data@.subrange(lo as int, hi as int);
    let len = hi - lo;
    if len == 4 && data[lo] == ('z' as u8) && data[lo + 1] == ('o' as u8) && data[lo + 2] == (
    'n' as u8) && data[lo + 3] == ('e' as u8) {
        assert(k =~= kb_zone());
        KeyKind::Zone
    } else if len == 3 && data[lo] == ('e' as u8) && data[lo + 1] == ('n' as u8) && data[lo + 2]
        == ('v' as u8) {
        assert(k =~= kb_env());
        KeyKind::Env
    } else if len == 5 && data[lo] == ('a' as u8) && data[lo + 1] == ('p' as u8) && data[lo + 2]
        == ('p' as u8) && data[lo + 3] == ('i' as u8) && data[lo + 4] == ('d' as u8) {
        assert(k =~= kb_appid());
        KeyKind::Appid
    } else if len == 8 && data[lo] == ('h' as u8) && data[lo + 1] == ('o' as u8) && data[lo + 2]
        == ('s' as u8) && data[lo + 3] == ('t' as u8) && data[lo + 4] == ('n' as u8) && data[lo
        + 5] == ('a' as u8) && data[lo + 6] == ('m' as u8) && data[lo + 7] == ('e' as u8) {
        assert(k =~= kb_hostname());
        KeyKind::Hostname
    } else if len == 5 && data[lo] == ('a' as u8) && data[lo + 1] == ('d' as u8) && data[lo + 2]
        == ('d' as u8) && data[lo + 3] == ('r' as u8) && data[lo + 4] == ('s' as u8) {
        assert(k =~= kb_addrs());
        KeyKind::Addrs
    } else if len == 7 && data[lo] == ('v' as u8) && data[lo + 1] == ('e' as u8) && data[lo + 2]
        == ('r' as u8) && data[lo + 3] == ('s' as u8) && data[lo + 4] == ('i' as u8) && data[lo
        + 5] == ('o' as u8) && data[lo + 6] == ('n' as u8) {
        assert(k =~= kb_version());
        KeyKind::Version
    } else if len == 8 && data[lo] == ('m' as u8) && data[lo + 1] == ('e' as u8) && data[lo + 2]
        == ('t' as u8) && data[lo + 3] == ('a' as u8) && data[lo + 4] == ('d' as u8) && data[lo
        + 5] == ('a' as u8) && data[lo + 6] == ('t' as u8) && data[lo + 7] == ('a' as u8) {
        assert(k =~= kb_metadata());
        KeyKind::Metadata
    } else {
        proof {
            if k == kb_zone() {
                assert(k.len() == 4 && k[0] == ('z' as u8) && k[1] == ('o' as u8) && k[2] == (
                'n' as u8) && k[3] == ('e' as u8));
            }
            if k == kb_env() {
                assert(k.len() == 3 && k[0] == ('e' as u8) && k[1] == ('n' as u8) && k[2] == (
                'v' as u8));
            }
            if k == kb_appid() {
                assert(k.len() == 5 && k[0] == ('a' as u8) && k[1] == ('p' as u8) && k[2] == (
                'p' as u8) && k[3] == ('i' as u8) && k[4] == ('d' as u8));
            }
            if k == kb_hostname() {
                assert(k.len() == 8 && k[0] == ('h' as u8) && k[1] == ('o' as u8) && k[2] == (
                's' as u8) && k[3] == ('t' as u8) && k[4] == ('n' as u8) && k[5] == ('a' as u8)
                    && k[6] == ('m' as u8) && k[7] == ('e' as u8));
            }
            if k == kb_addrs() {
                assert(k.len() == 5 && k[0] == ('a' as u8) && k[1] == ('d' as u8) && k[2] == (
                'd' as u8) && k[3] == ('r' as u8) && k[4] == ('s' as u8));
            }
            if k == kb_version() {
                assert(k.len() == 7 && k[0] == ('v' as u8) && k[1] == ('e' as u8) && k[2] == (
                'r' as u8) && k[3] == ('s' as u8) && k[4] == ('i' as u8) && k[5] == ('o' as u8)
                    && k[6] == ('n' as u8));
            }
            if k == kb_metadata() {
                assert(k.len() == 8 && k[0] == ('m' as u8) && k[1] == ('e' as u8) && k[2] == (
                't' as u8) && k[3] == ('a' as u8) && k[4] == ('d' as u8) && k[5] == ('a' as u8)
                    && k[6] == ('t' as u8) && k[7] == ('a' as u8));
            }
        }
        KeyKind::Other
    }
}

/// The codec's default decoder: splits on `&` and the first `=`, unescapes
/// and UTF-8-checks every value, fills recognised keys, ignores unknown ones,
/// and parses the metadata value as a JSON object of strings.
pub struct DefaultDecoder;

impl Decoder for DefaultDecoder {
    type Error = DefaultCodecError;

    open spec fn post(&self, data: Seq<u8>, r: Result<Instance, DefaultCodecError>) -> bool {
        decode_post(data, r)
    }

    #[verifier::rlimit(100)]
    fn decode(&self, data: &[u8]) -> (r: Result<Instance, DefaultCodecError>) {
        let ghost d = data@;
        let n = data.len();
        if !utf8_check(data) {
            return Err(DefaultCodecError::UTF8);
        }
        let mut i: usize = 0;
        while i < n
            invariant
                i <= n,
                n == d.len(),
                data@ == d,
                forall|t: int|
                    0 <= t < i && #[trigger] d[t] == ('%' as u8) ==> t + 3 <= n && is_hex_digit(
                        d[t + 1],
                    ) && is_hex_digit(d[t + 2]),
            decreases n - i,
        {
            if data[i] == ('%' as u8) {
                if n - i < 3 {
                    assert(!well_escaped(d));
                    return Err(DefaultCodecError::UTF8);
                }
                if !is_hex_digit_exec(data[i + 1]) || !is_hex_digit_exec(data[i + 2]) {
                    assert(!well_escaped(d));
                    return Err(DefaultCodecError::UTF8);
                }
            }
            i = i + 1;
        }
        assert(well_escaped(d));
        let mut zone = String::new();
        let mut env = String::new();
        let mut appid = String::new();
        let mut hostname = String::new();
        let mut version = String::new();
        let mut addrs: Vec<String> = Vec::new();
        let mut metadata: Vec<(String, String)> = Vec::new();
        let ghost mut done: Seq<Seq<u8>> = Seq::empty();
        let ghost mut fcur: ScanFields = scan_init();
        let mut start: usize = 0;
        let mut fin = false;
        proof {
            assert(strs_model(addrs@) =~= fcur.addrs);
            assert(pairs_model(metadata@) =~= Seq::<(Seq<char>, Seq<char>)>::empty());
            assert(d.skip(0) =~= d);
            assert(done + split_amp(d) =~= split_amp(d));
        }
        while !fin
            invariant
                n == d.len(),
                data@ == d,
                valid_utf8(d),
                well_escaped(d),
                start <= n,
                scan_pairs(done) == Some(fcur),
                first_error(done) is None,
                !fin ==> split_amp(d) == done + split_amp(d.skip(start as int)),
                fin ==> split_amp(d) == done,
                fcur.zone == zone@,
                fcur.env == env@,
                fcur.appid == appid@,
                fcur.hostname == hostname@,
                fcur.version == version@,
                fcur.addrs == strs_model(addrs@),
                sorted_pairs(pairs_model(metadata@)),
                fcur.metas.len() == 0 ==> pairs_model(metadata@) == Seq::<(
                    Seq<char>,
                    Seq<char>,
                )>::empty(),
                fcur.metas.len() >= 1 ==> (forall|m: Seq<(Seq<char>, Seq<char>)>|
                    sorted_pairs(m) && fcur.metas.last() == #[trigger] json_of(m) ==> pairs_model(
                        metadata@,
                    ) == m),
            decreases n - start, (if fin { 0int } else { 1int }),
        {
            let mut j = start;
            while j < n && data[j] != ('&' as u8)
                invariant
                    start <= j <= n,
                    n == d.len(),
                    data@ == d,
                    forall|t: int| start <= t < j ==> #[trigger] d[t] != amp_b(),
                decreases n - j,
            {
                j = j + 1;
            }
            let ghost seg = d.subrange(start as int, j as int);
            proof {
                assert(amp_free(seg)) by {
                    assert(forall|t: int|
                        0 <= t < seg.len() ==> #[trigger] seg[t] == d[start + t]);
                }
                if j == n {
                    assert(d.skip(start as int) =~= seg);
                    lemma_split_amp_whole(seg);
                } else {
                    assert(d[j as int] == amp_b());
                    assert(d.skip(start as int) =~= seg + seq![amp_b()] + d.skip(j + 1));
                    lemma_split_amp_step(seg, d.skip(j + 1));
                }
            }
            let ghost tail = if j < n {
                split_amp(d.skip(j + 1))
            } else {
                Seq::<Seq<u8>>::empty()
            };
            proof {
                assert(split_amp(d) =~= (done + seq![seg]) + tail);
            }
            let mut k = start;
            while k < j && data[k] != ('=' as u8)
                invariant
                    start <= k <= j <= n,
                    n == d.len(),
                    data@ == d,
                    forall|t: int| start <= t < k ==> #[trigger] d[t] != eq_b(),
                decreases j - k,
            {
                k = k + 1;
            }
            let ghost key = d.subrange(start as int, k as int);
            let vlo = if k < j {
                k + 1
            } else {
                j
            };
            let ghost value = d.subrange(vlo as int, j as int);
            proof {
                assert(eq_free(key)) by {
                    assert(forall|t: int|
                        0 <= t < key.len() ==> #[trigger] key[t] == d[start + t]);
                }
                if k < j {
                    assert(d[k as int] == eq_b());
                    assert(seg =~= key + seq![eq_b()] + value);
                    lemma_split_eq_at(key, value);
                } else {
                    assert(seg =~= key);
                    assert(value =~= Seq::<u8>::empty());
                    lemma_split_eq_none(key);
                }
                assert(split_eq(seg) == (key, value));
            }
            let dv_bytes = unescape_range(data, vlo, j);
            let dv = match string_from_utf8(dv_bytes) {
                None => {
                    proof {
                        assert(decode_value(value) is None);
                        assert(apply_pair(fcur, seg) is None);
                        assert((done + seq![seg]).drop_last() =~= done);
                        assert((done + seq![seg]).last() == seg);
                        assert(scan_pairs(done + seq![seg]) is None);
                        lemma_scan_extend(done + seq![seg], tail);
                        assert(scan_pairs(split_amp(d)) is None);
                        assert(pair_error(seg) == Some(DefaultCodecError::UTF8));
                        assert(first_error(done + seq![seg]) == Some(DefaultCodecError::UTF8));
                        lemma_first_error_extend(done + seq![seg], tail);
                        assert(first_error(split_amp(d)) == Some(DefaultCodecError::UTF8));
                    }
                    return Err(DefaultCodecError::UTF8);
                },
                Some(s) => s,
            };
            assert(decode_value(value) == Some(dv@));
            let ghost fnext = apply_pair(fcur, seg).unwrap();
            proof {
                assert((done + seq![seg]).drop_last() =~= done);
                assert((done + seq![seg]).last() == seg);
                assert(scan_pairs(done + seq![seg]) == Some(fnext));
            }
            match match_key(data, start, k) {
                KeyKind::Zone => {
                    zone = dv;
                    assert(pair_error(seg) is None);
                },
                KeyKind::Env => {
                    env = dv;
                    assert(pair_error(seg) is None);
                },
                KeyKind::Appid => {
                    appid = dv;
                    assert(pair_error(seg) is None);
                },
                KeyKind::Hostname => {
                    hostname = dv;
                    assert(pair_error(seg) is None);
                },
                KeyKind::Addrs => {
                    addrs.push(dv);
                    proof {
                        assert(strs_model(addrs@) =~= fnext.addrs);
                        assert(pair_error(seg) is None);
                    }
                },
                KeyKind::Version => {
                    version = dv;
                    assert(pair_error(seg) is None);
                },
                KeyKind::Metadata => {
                    match json_parse_pairs(dv.as_str()) {
                        None => {
                            proof {
                                lemma_scan_extend(done + seq![seg], tail);
                                assert(fnext.metas =~= fcur.metas.push(dv@));
                                assert(!json_parses(dv@));
                                assert(pair_error(seg) == Some(DefaultCodecError::MetadataSerde));
                                assert(first_error(done + seq![seg]) == Some(
                                    DefaultCodecError::MetadataSerde,
                                ));
                                lemma_first_error_extend(done + seq![seg], tail);
                                assert(first_error(split_amp(d)) == Some(
                                    DefaultCodecError::MetadataSerde,
                                ));
                                match scan_pairs(split_amp(d)) {
                                    Some(g) => {
                                        assert(g.metas.len() >= fnext.metas.len() >= 1);
                                        if g.metas.len() == 1 {
                                            assert(fnext.metas.len() == 1);
                                            assert(fnext.metas == g.metas.take(1));
                                            assert(g.metas[0] == fnext.metas[0]);
                                            assert(fnext.metas[0] == dv@);
                                            assert(forall|m: Seq<(Seq<char>, Seq<char>)>|
                                                sorted_pairs(m) ==> dv@ != #[trigger] json_of(m));
                                        }
                                    },
                                    None => {},
                                }
                            }
                            return Err(DefaultCodecError::MetadataSerde);
                        },
                        Some(v) => {
                            metadata = v;
                            proof {
                                assert(json_parses(dv@));
                                assert(pair_error(seg) is None);
                                assert(fnext.metas.last() == dv@);
                            }
                        },
                    }
                },
                KeyKind::Other => {
                    assert(pair_error(seg) is None);
                },
            }
            proof {
                assert((done + seq![seg]).drop_last() =~= done);
                assert((done + seq![seg]).last() == seg);
                assert(first_error(done + seq![seg]) is None);
                done = done + seq![seg];
                fcur = fnext;
            }
            if j == n {
                fin = true;
                proof {
                    assert(split_amp(d) =~= done);
                }
            } else {
                start = j + 1;
            }
        }
        let ins = Instance { zone, env, appid, hostname, addrs, version, metadata };
        proof {
            assert(fields_match(ins@, fcur));
        }
        Ok(ins)
    }
}

/// The default codec: [`DefaultEncoder`] paired with [`DefaultDecoder`].
pub fn new_default_codec() -> (r: Codec<DefaultEncoder, DefaultDecoder>)
    ensures
        r.spec_encoder() == DefaultEncoder,
        r.spec_decoder() == DefaultDecoder,
{
    Codec::new(DefaultEncoder, DefaultDecoder)
}

/// Round trip: whatever decoding returns on the wire form of an instance
/// whose metadata is a key-sorted mapping, it is the instance itself.
pub proof fn lemma_round_trip(x: InstanceModel, r: Result<Instance, DefaultCodecError>)
    requires
        sorted_pairs(x.metadata),
        decode_post(encoded(x), r),
    ensures
        r matches Ok(i) && i@ == x,
{
    lemma_encoded_shape(x);
    lemma_scan_encoded(x);
    let f = scan_pairs(encoded_pairs(x)).unwrap();
    assert(f.metas.len() == 1 && f.metas[0] == json_of(x.metadata) && f.metas.last() == json_of(
        x.metadata,
    ));
    assert(r is Ok);
    assert(r matches Ok(i) && i@.metadata == x.metadata);
    let i = r.unwrap();
    assert(fields_match(i@, f));
    assert(i@ =~= x);
}

/// Determinism: encoding never fails, and any two encodings of one instance
/// are byte-identical, across calls, runs and processes.
pub proof fn lemma_encode_deterministic(
    x: InstanceModel,
    r1: Result<Vec<u8>, DefaultCodecError>,
    r2: Result<Vec<u8>, DefaultCodecError>,
)
    requires
        (r1 matches Ok(b) ==> b@ == encoded(x)),
        r1 is Ok,
        (r2 matches Ok(b) ==> b@ == encoded(x)),
        r2 is Ok,
    ensures
        r1 matches Ok(b1) && (r2 matches Ok(b2) && b1@ == b2@),
{
}

/// Unknown-key tolerance: appending a pair whose key is none of the
/// recognised ones leaves the decoded instance unchanged; both decodes yield
/// exactly the encoded instance.
pub proof fn lemma_unknown_key_ignored(
    x: InstanceModel,
    k: Seq<u8>,
    v: Seq<u8>,
    r1: Result<Instance, DefaultCodecError>,
    r2: Result<Instance, DefaultCodecError>,
)
    requires
        sorted_pairs(x.metadata),
        key_free(k),
        k != kb_zone(),
        k != kb_env(),
        k != kb_appid(),
        k != kb_hostname(),
        k != kb_addrs(),
        k != kb_version(),
        k != kb_metadata(),
        ascii_bytes(v),
        amp_free(v),
        well_escaped(v),
        valid_utf8(unescape_bytes(v)),
        decode_post(encoded(x), r1),
        decode_post(encoded(x) + seq![amp_b()] + (k + seq![eq_b()] + v), r2),
    ensures
        r1 matches Ok(i) && i@ == x,
        r2 matches Ok(i) && i@ == x,
{
    lemma_round_trip(x, r1);
    lemma_encoded_shape(x);
    lemma_scan_encoded(x);
    let jp = k + seq![eq_b()] + v;
    let data2 = encoded(x) + seq![amp_b()] + jp;
    assert(ascii_bytes(data2)) by {
        assert(forall|t: int|
            0 <= t < jp.len() && t < k.len() ==> #[trigger] jp[t] == k[t]);
    }
    lemma_ascii_bytes_utf8(data2);
    assert(well_escaped(data2)) by {
        assert(well_escaped(k + seq![eq_b()])) by {
            assert(forall|t: int|
                0 <= t < (k + seq![eq_b()]).len() ==> #[trigger] (k + seq![eq_b()])[t] != (
                '%' as u8));
        }
        lemma_well_escaped_concat(k + seq![eq_b()], v);
        assert(k + seq![eq_b()] + v =~= (k + seq![eq_b()]) + v);
        lemma_well_escaped_concat(seq![amp_b()], jp);
        assert(well_escaped(seq![amp_b()])) by {
            assert(seq![amp_b()][0] != ('%' as u8));
        }
        lemma_well_escaped_concat(encoded(x), seq![amp_b()] + jp);
        assert(data2 =~= encoded(x) + (seq![amp_b()] + jp));
    }
    lemma_split_amp_concat(encoded(x), jp);
    assert(amp_free(jp)) by {
        assert(forall|t: int|
            0 <= t < jp.len() ==> #[trigger] jp[t] == (if t < k.len() {
                k[t]
            } else if t == k.len() {
                eq_b()
            } else {
                v[t - k.len() - 1]
            }));
    }
    lemma_split_amp_whole(jp);
    assert(split_amp(data2) =~= encoded_pairs(x) + seq![jp]);
    let ps2 = encoded_pairs(x) + seq![jp];
    let f = scan_pairs(encoded_pairs(x)).unwrap();
    assert(ps2.drop_last() =~= encoded_pairs(x));
    assert(ps2.last() == jp);
    assert(eq_free(k));
    lemma_split_eq_at(k, v);
    assert(decode_value(v) is Some);
    assert(apply_pair(f, jp) == Some(f));
    assert(scan_pairs(split_amp(data2)) == Some(f));
    assert(f.metas.len() == 1 && f.metas[0] == json_of(x.metadata) && f.metas.last() == json_of(
        x.metadata,
    ));
    assert(r2 is Ok);
    assert(r2 matches Ok(i) && i@.metadata == x.metadata);
    let i2 = r2.unwrap();
    assert(fields_match(i2@, f));
    assert(i2@ =~= x);
}


} // verus!