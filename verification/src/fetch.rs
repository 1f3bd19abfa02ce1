//! What a NomadNet node returns, classified by path; and the encoding of a
//! form submission's query string as the request payload a node expects.

use vstd::prelude::*;
use vstd::string::*;
use crate::text::{
    chars_of, decode_utf8_lossy, find_first, find_last, last_index, lemma_find_first_none,
    lemma_find_first_prefix, lemma_split_len, lower_seq, push_char, split, to_lower, utf8_lossy,
};

verus! {

/// The content of a fetched resource, classified by its path.
#[derive(Debug, Clone, PartialEq, Eq)]
pub enum FetchedContent {
    Html(Vec<u8>),
    Micron(Vec<u8>),
    File { name: String, bytes: Vec<u8> },
}

/// The extension of a path (after its last `.`), lower-cased, if it has one.
pub open spec fn extension(path: Seq<char>) -> Option<Seq<char>> {
    match find_last(path, '.') {
        Some(k) => Some(lower_seq(path.skip(k + 1))),
        None => None,
    }
}

/// The last segment of a path (after its last `/`).
pub open spec fn file_name(path: Seq<char>) -> Seq<char> {
    match find_last(path, '/') {
        Some(k) => path.skip(k + 1),
        None => path,
    }
}

/// The path's extension is `html` or `htm` (any case).
pub open spec fn is_html_path(path: Seq<char>) -> bool {
    extension(path) == Some("html"@) || extension(path) == Some("htm"@)
}

/// The path's extension is `mu` (any case).
pub open spec fn is_micron_path(path: Seq<char>) -> bool {
    extension(path) == Some("mu"@)
}

fn same_chars(a: &[char], b: &[char]) -> (r: bool)
    ensures
        r == (a@ == b@),
{
    if a.len() != b.len() {
        return false;
    }
    let mut i: usize = 0;
    while i < a.len()
        invariant
            i <= a@.len(),
            a@.len() == b@.len(),
            forall|j: int| 0 <= j < i ==> a@[j] == b@[j],
        decreases a@.len() - i,
    {
        if a[i] != b[i] {
            return false;
        }
        i += 1;
    }
    assert(a@ =~= b@);
    true
}

/// Classifies a fetched resource by its path: `.html`/`.htm` is HTML, `.mu`
/// is Micron (any letter case), anything else is a file named by the path's
/// last segment.
pub fn classify(path: &str, bytes: Vec<u8>) -> (r: FetchedContent)
    ensures
        is_html_path(path@) ==> r == FetchedContent::Html(bytes),
        !is_html_path(path@) && is_micron_path(path@) ==> r == FetchedContent::Micron(bytes),
        !is_html_path(path@) && !is_micron_path(path@) ==> (r matches FetchedContent::File {
            name,
            bytes: b,
        } && name@ == file_name(path@) && b == bytes),
{
    let p = chars_of(path);
    let ext: Option<Vec<char>> = match last_index(p.as_slice(), '.') {
        Some(k) => {
            let n = p.len();
            assert(k < n);
            let mut e: Vec<char> = Vec::new();
            let mut i = k + 1;
            while i < p.len()
                invariant
                    k < p@.len(),
                    k + 1 <= i <= p@.len(),
                    e@ == lower_seq(p@.subrange(k + 1, i as int)),
                decreases p@.len() - i,
            {
                e.push(to_lower(p[i]));
                i += 1;
                assert(e@ =~= lower_seq(p@.subrange(k + 1, i as int)));
            }
            assert(p@.subrange(k + 1, i as int) =~= p@.skip(k + 1));
            Some(e)
        },
        None => None,
    };
    match ext {
        Some(e) => {
            let html = chars_of("html");
            let htm = chars_of("htm");
            let mu = chars_of("mu");
            if same_chars(e.as_slice(), html.as_slice()) || same_chars(e.as_slice(), htm.as_slice()) {
                return FetchedContent::Html(bytes);
            }
            if same_chars(e.as_slice(), mu.as_slice()) {
                return FetchedContent::Micron(bytes);
            }
        },
        None => {},
    }
    let name = match last_index(p.as_slice(), '/') {
        Some(k) => {
            let n = p.len();
            assert(k < n);
            String::from_str(path.substring_char(k + 1, n))
        },
        None => String::from_str(path),
    };
    FetchedContent::File { name, bytes }
}

// ---------------------------------------------------------------------------
// Form payloads.

/// The value of an ASCII hex digit byte.
pub open spec fn hex_byte(b: u8) -> Option<nat> {
    if 0x30 <= b && b <= 0x39 {
        Some((b - 0x30) as nat)
    } else if 0x61 <= b && b <= 0x66 {
        Some((b - 0x61 + 10) as nat)
    } else if 0x41 <= b && b <= 0x46 {
        Some((b - 0x41 + 10) as nat)
    } else {
        None
    }
}

/// What `u8::from_str_radix(_, 16)` gives the two characters after a `%`
/// (each byte taken as the character with that code): two hex digits, or
/// `+` and one.
pub open spec fn escape_byte(h1: u8, h2: u8) -> Option<u8> {
    if h1 == 0x2b && hex_byte(h2) is Some {
        Some(hex_byte(h2)->0 as u8)
    } else if hex_byte(h1) is Some && hex_byte(h2) is Some {
        Some((16 * hex_byte(h1)->0 + hex_byte(h2)->0) as u8)
    } else {
        None
    }
}

/// One `application/x-www-form-urlencoded` component decoded: `+` is a
/// space, `%XX` the byte `XX`. A `%` that starts no valid escape stays a `%`
/// and the two bytes after it are dropped, as is what is left after a `%`
/// too close to the end.
pub open spec fn percent_decoded(b: Seq<u8>) -> Seq<u8>
    decreases b.len(),
{
    if b.len() == 0 {
        Seq::empty()
    } else if b[0] == 0x2b {
        seq![0x20u8] + percent_decoded(b.skip(1))
    } else if b[0] == 0x25 {
        if b.len() >= 3 {
            (match escape_byte(b[1], b[2]) {
                Some(x) => seq![x],
                None => seq![0x25u8],
            }) + percent_decoded(b.skip(3))
        } else {
            seq![0x25u8]
        }
    } else {
        seq![b[0]] + percent_decoded(b.skip(1))
    }
}

fn hex_byte_value(b: u8) -> (r: Option<u8>)
    ensures
        match hex_byte(b) {
            Some(v) => r == Some(v as u8),
            None => r is None,
        },
{
    if 0x30 <= b && b <= 0x39 {
        Some(b - 0x30)
    } else if 0x61 <= b && b <= 0x66 {
        Some(b - 0x61 + 10)
    } else if 0x41 <= b && b <= 0x46 {
        Some(b - 0x41 + 10)
    } else {
        None
    }
}

fn escape_value(h1: u8, h2: u8) -> (r: Option<u8>)
    ensures
        r == escape_byte(h1, h2),
{
    match (hex_byte_value(h1), hex_byte_value(h2)) {
        (_, Some(b)) if h1 == 0x2b => Some(b),
        (Some(a), Some(b)) => Some(16 * a + b),
        _ => None,
    }
}

/// Decodes one form component's bytes.
pub fn percent_decode_bytes(b: &[u8]) -> (r: Vec<u8>)
    ensures
        r@ == percent_decoded(b@),
{
    let mut out: Vec<u8> = Vec::new();
    let mut i: usize = 0;
    assert(b@.skip(0) =~= b@);
    while i < b.len()
        invariant
            i <= b@.len(),
            percent_decoded(b@) == out@ + percent_decoded(b@.skip(i as int)),
        decreases b@.len() - i,
    {
        let ghost rest = b@.skip(i as int);
        let c = b[i];
        if c == 0x2b {
            out.push(0x20);
            i += 1;
            assert(rest.skip(1) =~= b@.skip(i as int));
            assert(percent_decoded(b@) =~= out@ + percent_decoded(b@.skip(i as int)));
        } else if c == 0x25 {
            if b.len() - i > 2 {
                match escape_value(b[i + 1], b[i + 2]) {
                    Some(x) => out.push(x),
                    None => out.push(0x25),
                }
                i += 3;
                assert(rest.skip(3) =~= b@.skip(i as int));
                assert(percent_decoded(b@) =~= out@ + percent_decoded(b@.skip(i as int)));
            } else {
                out.push(0x25);
                assert(percent_decoded(b@) =~= out@);
                return out;
            }
        } else {
            out.push(c);
            i += 1;
            assert(rest.skip(1) =~= b@.skip(i as int));
            assert(percent_decoded(b@) =~= out@ + percent_decoded(b@.skip(i as int)));
        }
    }
    assert(percent_decoded(b@.skip(i as int)) =~= Seq::<u8>::empty());
    assert(out@ =~= out@ + Seq::<u8>::empty());
    out
}

/// Decodes one form component: percent-decoding, then lossy UTF-8.
pub fn percent_decode(s: &[u8]) -> (r: String)
    ensures
        r@ == utf8_lossy(percent_decoded(s@)),
        vstd::utf8::valid_utf8(percent_decoded(s@)) ==> r@ == vstd::utf8::decode_utf8(
            percent_decoded(s@),
        ),
{
    let bytes = percent_decode_bytes(s);
    decode_utf8_lossy(bytes.as_slice())
}

/// A form pair `key=value` (or a bare `key`), both sides decoded.
pub open spec fn form_pair(p: Seq<u8>) -> (Seq<char>, Seq<char>) {
    match find_first(p, 0x3du8) {
        Some(i) => (utf8_lossy(percent_decoded(p.take(i))), utf8_lossy(percent_decoded(p.skip(i + 1)))),
        None => (utf8_lossy(percent_decoded(p)), utf8_lossy(percent_decoded(Seq::empty()))),
    }
}

/// The keys of a field list, in order.
pub open spec fn keys(fields: Seq<(Seq<char>, Seq<char>)>) -> Seq<Seq<char>> {
    fields.map_values(|f: (Seq<char>, Seq<char>)| f.0)
}

/// A field added to a list: a key already present gets `,` and the new
/// value appended to its value (a checkbox group); a new key goes last.
pub open spec fn merge_field(fields: Seq<(Seq<char>, Seq<char>)>, kv: (Seq<char>, Seq<char>)) -> Seq<
    (Seq<char>, Seq<char>),
> {
    match find_first(keys(fields), kv.0) {
        Some(i) => fields.update(i, (kv.0, fields[i].1 + seq![','] + kv.1)),
        None => fields.push(kv),
    }
}

/// The fields of a query's `&`-separated pairs, empty pairs skipped.
pub open spec fn fields_of(pairs: Seq<Seq<u8>>) -> Seq<(Seq<char>, Seq<char>)>
    decreases pairs.len(),
{
    if pairs.len() == 0 {
        Seq::empty()
    } else {
        let prev = fields_of(pairs.drop_last());
        if pairs.last().len() == 0 {
            prev
        } else {
            merge_field(prev, form_pair(pairs.last()))
        }
    }
}

/// The fields of a query string (given as its UTF-8 bytes).
pub open spec fn form_fields(query: Seq<u8>) -> Seq<(Seq<char>, Seq<char>)> {
    fields_of(split(query, 0x26u8))
}

/// `n` as two big-endian bytes (its low 16 bits).
pub open spec fn be16(n: nat) -> Seq<u8> {
    seq![((n / 256) % 256) as u8, (n % 256) as u8]
}

/// `n` as four big-endian bytes (its low 32 bits).
pub open spec fn be32(n: nat) -> Seq<u8> {
    seq![((n / 16777216) % 256) as u8, ((n / 65536) % 256) as u8, ((n / 256) % 256) as u8, (n
        % 256) as u8]
}

/// The msgpack header of a string of `len` bytes (the length taken as a
/// `u32`): fixstr below 32, then str8, str16, str32.
pub open spec fn str_header(len: nat) -> Seq<u8> {
    let n = len % 4294967296;
    if n < 32 {
        seq![(0xa0 + n) as u8]
    } else if n < 256 {
        seq![0xd9u8, n as u8]
    } else if n < 65536 {
        seq![0xdau8] + be16(n)
    } else {
        seq![0xdbu8] + be32(n)
    }
}

/// The msgpack header of a map of `len` entries (the count taken as a
/// `u32`): fixmap below 16, then map16, map32.
pub open spec fn map_header(len: nat) -> Seq<u8> {
    let n = len % 4294967296;
    if n < 16 {
        seq![(0x80 + n) as u8]
    } else if n < 65536 {
        seq![0xdeu8] + be16(n)
    } else {
        seq![0xdfu8] + be32(n)
    }
}

/// A string as msgpack: its header, then its UTF-8 bytes.
pub open spec fn msgpack_str(s: Seq<char>) -> Seq<u8> {
    str_header(vstd::utf8::encode_utf8(s).len()) + vstd::utf8::encode_utf8(s)
}

/// The entries of a string map as msgpack: each key, then its value.
pub open spec fn msgpack_entries(entries: Seq<(Seq<char>, Seq<char>)>) -> Seq<u8>
    decreases entries.len(),
{
    if entries.len() == 0 {
        Seq::empty()
    } else {
        msgpack_entries(entries.drop_last()) + msgpack_str(entries.last().0) + msgpack_str(
            entries.last().1,
        )
    }
}

/// The msgpack encoding that `rmpv::encode::write_value` writes for a map
/// whose keys and values are the given strings, in order.
pub open spec fn msgpack_string_map(entries: Seq<(Seq<char>, Seq<char>)>) -> Seq<u8> {
    map_header(entries.len()) + msgpack_entries(entries)
}

/// The views of a field list.
pub open spec fn field_views(fields: Seq<(String, String)>) -> Seq<(Seq<char>, Seq<char>)> {
    fields.map_values(|f: (String, String)| (f.0@, f.1@))
}

/// Writes the fields as a msgpack map of strings to strings
/// (`rmpv::encode::write_value` on an `rmpv::Value::Map` of
/// `rmpv::Value::from` strings): the map header, then each key and value as
/// a string header and its UTF-8 bytes. Writing into a `Vec` does not fail.
#[verifier::external_body]
fn write_string_map(fields: Vec<(String, String)>) -> (r: Vec<u8>)
    ensures
        r@ == msgpack_string_map(field_views(fields@)),
{
    let entries: Vec<(rmpv::Value, rmpv::Value)> = fields.into_iter().map(
        |(k, v)| (rmpv::Value::from(k), rmpv::Value::from(v)),
    ).collect();
    let mut buf = Vec::new();
    let _ = rmpv::encode::write_value(&mut buf, &rmpv::Value::Map(entries));
    buf
}

/// The request payload of a form submission: nothing for a query without
/// fields, else the msgpack map of its fields.
pub open spec fn form_payload(query: Seq<u8>) -> Seq<u8> {
    if form_fields(query).len() == 0 {
        Seq::empty()
    } else {
        msgpack_string_map(form_fields(query))
    }
}

/// Splits bytes at every `sep`.
fn split_bytes(s: &[u8], sep: u8) -> (r: Vec<Vec<u8>>)
    ensures
        r@.map_values(|p: Vec<u8>| p@) == split(s@, sep),
{
    let mut parts: Vec<Vec<u8>> = Vec::new();
    let mut cur: Vec<u8> = Vec::new();
    let mut i: usize = 0;
    assert(s@.take(0) =~= Seq::<u8>::empty());
    assert(parts@.map_values(|p: Vec<u8>| p@).push(cur@) =~= split(s@.take(0), sep));
    while i < s.len()
        invariant
            i <= s@.len(),
            parts@.map_values(|p: Vec<u8>| p@).push(cur@) == split(s@.take(i as int), sep),
        decreases s@.len() - i,
    {
        let c = s[i];
        let ghost prev = parts@.map_values(|p: Vec<u8>| p@).push(cur@);
        assert(s@.take(i + 1).drop_last() =~= s@.take(i as int));
        if c == sep {
            parts.push(cur);
            cur = Vec::new();
            assert(parts@.map_values(|p: Vec<u8>| p@).push(cur@) =~= prev.push(Seq::empty()));
        } else {
            cur.push(c);
            assert(parts@.map_values(|p: Vec<u8>| p@).push(cur@) =~= prev.update(
                prev.len() - 1,
                prev.last().push(c),
            ));
        }
        i += 1;
    }
    assert(s@.take(i as int) =~= s@);
    parts.push(cur);
    parts
}

/// Decodes one `key=value` pair.
fn decode_pair(p: &[u8]) -> (r: (String, String))
    ensures
        (r.0@, r.1@) == form_pair(p@),
{
    let mut i: usize = 0;
    while i < p.len() && p[i] != 0x3d
        invariant
            i <= p@.len(),
            forall|j: int| 0 <= j < i ==> p@[j] != 0x3du8,
        decreases p@.len() - i,
    {
        i += 1;
    }
    proof {
        lemma_find_first_none(p@, 0x3du8);
    }
    if i < p.len() {
        assert(find_first(p@, 0x3du8) == Some(i as int)) by {
            let k = find_first(p@, 0x3du8)->0;
            assert(k == i as int);
        }
        let k = &p[0..i];
        let v = &p[i + 1..p.len()];
        assert(k@ == p@.take(i as int));
        assert(v@ == p@.skip(i + 1));
        (percent_decode(k), percent_decode(v))
    } else {
        let empty: Vec<u8> = Vec::new();
        assert(empty@ =~= Seq::<u8>::empty());
        (percent_decode(p), percent_decode(empty.as_slice()))
    }
}

/// The index of the field with key `key`, if any.
fn find_field(fields: &Vec<(String, String)>, key: &String) -> (r: Option<usize>)
    ensures
        r matches Some(j) ==> find_first(keys(field_views(fields@)), key@) == Some(j as int) && j
            < fields@.len(),
        r is None ==> find_first(keys(field_views(fields@)), key@) is None,
{
    let ghost ks = keys(field_views(fields@));
    let mut j: usize = 0;
    while j < fields.len()
        invariant
            j <= fields@.len(),
            ks == keys(field_views(fields@)),
            forall|m: int| 0 <= m < j ==> ks[m] != key@,
        decreases fields@.len() - j,
    {
        assert(ks[j as int] == fields@[j as int].0@);
        if fields[j].0 == *key {
            proof {
                lemma_find_first_none(ks, key@);
                let k = find_first(ks, key@)->0;
                assert(k == j as int);
            }
            return Some(j);
        }
        j += 1;
    }
    proof {
        lemma_find_first_none(ks, key@);
    }
    None
}

/// Adds a decoded field to a form's field list: a key already present gets
/// `,` and the new value appended to its value (a checkbox group); a new key
/// goes last.
pub fn add_field(fields: &mut Vec<(String, String)>, key: String, value: String)
    ensures
        field_views(final(fields)@) == merge_field(field_views(old(fields)@), (key@, value@)),
{
    let ghost before = field_views(fields@);
    match find_field(fields, &key) {
        Some(j) => {
            let old_value = &fields[j].1;
            assert(old_value@ == before[j as int].1);
            let mut joined = old_value.clone();
            push_char(&mut joined, ',');
            joined.append(value.as_str());
            assert(joined@ =~= before[j as int].1 + seq![','] + value@);
            fields.set(j, (key, joined));
            assert(fields@[j as int].0@ == key@);
            assert(field_views(fields@) =~= merge_field(before, (key@, value@)));
        },
        None => {
            fields.push((key, value));
            assert(field_views(fields@) =~= merge_field(before, (key@, value@)));
        },
    }
}

/// Encodes a `nomad://` request's query string (from a native HTML form
/// submission) as the msgpack map a node expects: `{"field_<name>":
/// "<value>", ...}`, keys and values percent-decoded; values of a repeated
/// key comma-joined; nothing at all for a query without fields.
pub fn encode_form_payload(query: &str) -> (r: Vec<u8>)
    ensures
        r@ == form_payload(query.spec_bytes()),
{
    let bytes = query.as_bytes();
    let pairs = split_bytes(bytes, 0x26);
    let ghost all = pairs@.map_values(|p: Vec<u8>| p@);
    let mut fields: Vec<(String, String)> = Vec::new();
    let mut i: usize = 0;
    assert(all.take(0) =~= Seq::<Seq<u8>>::empty());
    assert(field_views(fields@) =~= Seq::<(Seq<char>, Seq<char>)>::empty());
    while i < pairs.len()
        invariant
            i <= pairs@.len(),
            all == pairs@.map_values(|p: Vec<u8>| p@),
            all == split(query.spec_bytes(), 0x26u8),
            field_views(fields@) == fields_of(all.take(i as int)),
        decreases pairs@.len() - i,
    {
        assert(all.take(i + 1).drop_last() =~= all.take(i as int));
        assert(pairs@[i as int]@ == all[i as int]);
        let pair = pairs[i].as_slice();
        if pair.len() > 0 {
            let (key, value) = decode_pair(pair);
            add_field(&mut fields, key, value);
        }
        i += 1;
    }
    assert(all.take(i as int) =~= all);
    if fields.len() == 0 {
        return Vec::new();
    }
    write_string_map(fields)
}

} // verus!
