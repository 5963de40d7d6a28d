use vstd::prelude::*;
use vstd::string::StrSliceExecFns;
use vstd::string::StringSliceAdditionalSpecFns;
use vstd::utf8::{decode_utf8, encode_utf8, is_char_boundary, valid_utf8};
use crate::digest::{hex_encode, spec_hex};
use crate::unit::DataUnit;

verus! {

/// Bytes of a value shown in a search hit before it is cut.
pub const SNIPPET_BYTES: usize = 80;

/// A search result.
#[derive(Debug, Clone)]
pub struct SearchHit {
    /// Content hash, lower-case hexadecimal.
    pub content_hash: String,
    pub key: String,
    pub value_snippet: String,
    pub tags: Vec<String>,
    pub created_at: u64,
    /// "key", "value" or "tag".
    pub match_field: String,
}

/// The Unicode lower-case form of a text (`str::to_lowercase`); a fixed
/// function of the text.
pub uninterp spec fn spec_lowercase(s: Seq<char>) -> Seq<char>;

/// The text of bytes read as UTF-8 with each invalid sequence replaced by
/// U+FFFD (`String::from_utf8_lossy`); a fixed function of the bytes.
pub uninterp spec fn spec_utf8_lossy(b: Seq<u8>) -> Seq<char>;

/// `str::to_lowercase`: the named `spec_lowercase` of the text.
#[verifier::external_body]
pub(crate) fn lowercase(s: &str) -> (r: String)
    ensures
        r@ == spec_lowercase(s@),
{
    s.to_lowercase()
}

/// `String::from_utf8_lossy`: the named `spec_utf8_lossy` of the bytes;
/// for valid UTF-8 it is the text the bytes encode, as the documentation
/// states (the bytes are borrowed unchanged).
#[verifier::external_body]
pub(crate) fn utf8_lossy(b: &[u8]) -> (r: String)
    ensures
        r@ == spec_utf8_lossy(b@),
        valid_utf8(b@) ==> r@ == decode_utf8(b@),
{
    String::from_utf8_lossy(b).into_owned()
}

/// `n` occurs in `h`.
pub open spec fn has_sub(h: Seq<char>, n: Seq<char>) -> bool {
    exists|i: int| 0 <= i && i + n.len() <= h.len() && #[trigger] h.subrange(i, i + n.len()) == n
}

/// The characters of a text.
pub(crate) fn chars_of(s: &str) -> (v: Vec<char>)
    ensures
        v@ == s@,
{
    let n = s.unicode_len();
    let mut v: Vec<char> = Vec::new();
    let mut i: usize = 0;
    while i < n
        invariant
            n == s@.len(),
            i <= n,
            v@ == s@.take(i as int),
        decreases n - i,
    {
        v.push(s.get_char(i));
        i = i + 1;
        assert(v@ =~= s@.take(i as int));
    }
    assert(s@.take(n as int) =~= s@);
    v
}

/// Whether `needle` occurs in `hay`.
pub fn text_contains(hay: &str, needle: &str) -> (r: bool)
    ensures
        r == has_sub(hay@, needle@),
{
    let h = chars_of(hay);
    let n = chars_of(needle);
    if n.len() > h.len() {
        proof {
            assert forall|i: int| 0 <= i && i + n@.len() <= h@.len() implies #[trigger] hay@.subrange(
                i,
                i + needle@.len(),
            ) != needle@ by {}
        }
        return false;
    }
    let hl = h.len();
    let last = hl - n.len();
    let mut i: usize = 0;
    while i <= last
        invariant
            h@ == hay@,
            n@ == needle@,
            last == h@.len() - n@.len(),
            hl == h@.len(),
            i <= last + 1,
            forall|k: int| 0 <= k < i ==> #[trigger] hay@.subrange(k, k + needle@.len()) != needle@,
        decreases last + 1 - i,
    {
        let mut j: usize = 0;
        let mut same = true;
        while j < n.len()
            invariant
                h@ == hay@,
                n@ == needle@,
                hl == h@.len(),
                i + n@.len() <= h@.len(),
                j <= n@.len(),
                same == forall|t: int| 0 <= t < j ==> h@[i + t] == n@[t],
            decreases n@.len() - j,
        {
            if h[i + j] != n[j] {
                same = false;
            }
            j = j + 1;
        }
        if same {
            assert(hay@.subrange(i as int, i + needle@.len()) =~= needle@);
            return true;
        }
        proof {
            let t = choose|t: int| 0 <= t < n@.len() && h@[i + t] != n@[t];
            assert(hay@.subrange(i as int, i + needle@.len())[t] != needle@[t]);
        }
        i = i + 1;
    }
    proof {
        assert forall|k: int| 0 <= k && k + needle@.len() <= hay@.len() implies #[trigger] hay@.subrange(
            k,
            k + needle@.len(),
        ) != needle@ by {
            assert(k < i);
        }
    }
    false
}

/// Which field of an item matches the lower-case query `q`: its key, else
/// its value, else one of its tags, each compared in lower case.
pub open spec fn match_field(name: Seq<char>, value: Seq<char>, tags: Seq<Seq<char>>, q: Seq<char>) -> Option<Seq<char>> {
    if has_sub(spec_lowercase(name), q) {
        Some("key"@)
    } else if has_sub(spec_lowercase(value), q) {
        Some("value"@)
    } else if exists|k: int| 0 <= k < tags.len() && has_sub(spec_lowercase(#[trigger] tags[k]), q) {
        Some("tag"@)
    } else {
        None
    }
}

/// The shown part of a value: the value itself up to 80 bytes; beyond, its
/// first 80 bytes and "...", or `None` when byte 80 falls inside a character
/// (where cutting the text there panics).
pub open spec fn snippet_of(v: Seq<char>) -> Option<Seq<char>> {
    if encode_utf8(v).len() > SNIPPET_BYTES {
        if is_char_boundary(encode_utf8(v), SNIPPET_BYTES as int) {
            Some(decode_utf8(encode_utf8(v).take(SNIPPET_BYTES as int)) + "..."@)
        } else {
            None
        }
    } else {
        Some(v)
    }
}

/// The text of a data unit's payload.
pub open spec fn value_text(u: DataUnit) -> Seq<char> {
    spec_utf8_lossy(u.yin.payload@)
}

/// The texts of a list of strings.
pub open spec fn tag_texts(s: Seq<String>) -> Seq<Seq<char>> {
    s.map_values(|x: String| x@)
}

/// The field of `u` that matches `q`, if any.
pub open spec fn unit_match(u: DataUnit, q: Seq<char>) -> Option<Seq<char>> {
    match_field(u.yang.name@, value_text(u), tag_texts(u.yang.tags@), q)
}

/// The positions of the units reported, scanning from `i` with `acc`
/// reported so far: the scan stops once `max` are reported (checked before
/// each unit), and a matching unit is added.
pub open spec fn reported_from(units: Seq<DataUnit>, q: Seq<char>, max: nat, i: int, acc: Seq<int>) -> Seq<int>
    decreases units.len() - i,
{
    if i < 0 || i >= units.len() || acc.len() >= max {
        acc
    } else {
        let acc2 = if unit_match(units[i], q) is Some { acc.push(i) } else { acc };
        reported_from(units, q, max, i + 1, acc2)
    }
}

/// The positions of the units a search reports.
pub open spec fn reported(units: Seq<DataUnit>, q: Seq<char>, max: nat) -> Seq<int> {
    reported_from(units, q, max, 0, Seq::empty())
}

/// `h` is the hit for unit `u` matched in field `field`.
pub open spec fn hit_for(h: SearchHit, u: DataUnit, field: Seq<char>) -> bool {
    &&& h.content_hash@ == spec_hex(u.yin.content_hash@)
    &&& h.key@ == u.yang.name@
    &&& snippet_of(value_text(u)) == Some(h.value_snippet@)
    &&& tag_texts(h.tags@) == tag_texts(u.yang.tags@)
    &&& h.created_at == u.yang.created_at
    &&& h.match_field@ == field
}

/// `h` is the hit reported for unit `u` under query `q`.
pub open spec fn hit_ok(h: SearchHit, u: DataUnit, q: Seq<char>) -> bool {
    match unit_match(u, q) {
        Some(f) => hit_for(h, u, f),
        None => false,
    }
}

proof fn lemma_reported_prefix(units: Seq<DataUnit>, q: Seq<char>, max: nat, i: int, acc: Seq<int>)
    requires
        0 <= i,
    ensures
        reported_from(units, q, max, i, acc).len() >= acc.len(),
        reported_from(units, q, max, i, acc).take(acc.len() as int) == acc,
        acc.len() <= max ==> reported_from(units, q, max, i, acc).len() <= max,
    decreases units.len() - i,
{
    if i < units.len() && acc.len() < max {
        let acc2 = if unit_match(units[i], q) is Some { acc.push(i) } else { acc };
        lemma_reported_prefix(units, q, max, i + 1, acc2);
        assert(reported_from(units, q, max, i + 1, acc2).take(acc.len() as int) =~= acc2.take(
            acc.len() as int,
        ));
        assert(acc2.take(acc.len() as int) =~= acc);
    } else {
        assert(acc.take(acc.len() as int) =~= acc);
    }
}

/// A search reports at most the limit.
pub proof fn lemma_reported_within_limit(units: Seq<DataUnit>, q: Seq<char>, max: nat)
    ensures
        reported(units, q, max).len() <= max,
{
    lemma_reported_prefix(units, q, max, 0, Seq::empty());
}

/// Matching ignores case in every field: a unit matches the lower-case
/// query `q` exactly when its key, its value text or one of its tags,
/// lower-cased, contains `q`; and the field reported is the first of key,
/// value and tag that does.
pub proof fn lemma_match_ignores_case(u: DataUnit, q: Seq<char>)
    ensures
        (unit_match(u, q) is Some) <==> (has_sub(spec_lowercase(u.yang.name@), q) || has_sub(
            spec_lowercase(spec_utf8_lossy(u.yin.payload@)),
            q,
        ) || exists|k: int|
            0 <= k < u.yang.tags@.len() && has_sub(spec_lowercase(#[trigger] u.yang.tags@[k]@), q)),
        has_sub(spec_lowercase(u.yang.name@), q) ==> unit_match(u, q) == Some("key"@),
        !has_sub(spec_lowercase(u.yang.name@), q) && has_sub(spec_lowercase(spec_utf8_lossy(u.yin.payload@)), q)
            ==> unit_match(u, q) == Some("value"@),
{
    let tags = tag_texts(u.yang.tags@);
    assert forall|k: int| 0 <= k < u.yang.tags@.len() implies #[trigger] tags[k] == u.yang.tags@[k]@ by {}
    if exists|k: int| 0 <= k < u.yang.tags@.len() && has_sub(spec_lowercase(#[trigger] u.yang.tags@[k]@), q) {
        let k = choose|k: int| 0 <= k < u.yang.tags@.len() && has_sub(spec_lowercase(#[trigger] u.yang.tags@[k]@), q);
        assert(has_sub(spec_lowercase(tags[k]), q));
    }
    if exists|k: int| 0 <= k < tags.len() && has_sub(spec_lowercase(#[trigger] tags[k]), q) {
        let k = choose|k: int| 0 <= k < tags.len() && has_sub(spec_lowercase(#[trigger] tags[k]), q);
        assert(has_sub(spec_lowercase(u.yang.tags@[k]@), q));
    }
}

/// From unit `i` on with `acc` reported so far, a scan whose limit is at
/// least the number of units reports, besides `acc`, exactly the matching
/// units from `i` on.
proof fn lemma_reported_from_all(units: Seq<DataUnit>, q: Seq<char>, max: nat, i: int, acc: Seq<int>)
    requires
        0 <= i <= units.len(),
        max >= units.len(),
        acc.len() <= i,
    ensures
        forall|j: int|
            #![trigger reported_from(units, q, max, i, acc).contains(j)]
            reported_from(units, q, max, i, acc).contains(j) <==> (acc.contains(j) || (i <= j < units.len()
                && unit_match(units[j], q) is Some)),
    decreases units.len() - i,
{
    if i < units.len() {
        let acc2 = if unit_match(units[i], q) is Some { acc.push(i) } else { acc };
        lemma_reported_from_all(units, q, max, i + 1, acc2);
        assert forall|j: int| acc2.contains(j) <==> (acc.contains(j) || (j == i && unit_match(units[i], q) is Some)) by {
            if unit_match(units[i], q) is Some {
                if acc2.contains(j) {
                    let t = choose|t: int| 0 <= t < acc2.len() && acc2[t] == j;
                    if t < acc.len() {
                        assert(acc[t] == j);
                    }
                }
                if acc.contains(j) {
                    let t = choose|t: int| 0 <= t < acc.len() && acc[t] == j;
                    assert(acc2[t] == j);
                }
                if j == i {
                    assert(acc2[acc.len() as int] == j);
                }
            }
        }
        let r = reported_from(units, q, max, i, acc);
        assert(r == reported_from(units, q, max, i + 1, acc2));
        assert forall|j: int| #[trigger] r.contains(j) <==> (acc.contains(j) || (i <= j < units.len() && unit_match(
            units[j],
            q,
        ) is Some)) by {
            assert(reported_from(units, q, max, i + 1, acc2).contains(j) <==> (acc2.contains(j) || (i + 1 <= j
                < units.len() && unit_match(units[j], q) is Some)));
        }
    }
}

/// A search whose limit is at least the number of units reports exactly
/// the units that match (see `lemma_match_ignores_case`).
pub proof fn lemma_search_reports_every_match(units: Seq<DataUnit>, q: Seq<char>, max: nat)
    requires
        max >= units.len(),
    ensures
        forall|j: int|
            0 <= j < units.len() ==> (reported(units, q, max).contains(j) <==> unit_match(units[j], q) is Some),
{
    lemma_reported_from_all(units, q, max, 0, Seq::empty());
}

/// A copy of a list of strings.
pub(crate) fn copy_strings(s: &Vec<String>) -> (v: Vec<String>)
    ensures
        tag_texts(v@) == tag_texts(s@),
{
    let mut v: Vec<String> = Vec::new();
    let mut i: usize = 0;
    while i < s.len()
        invariant
            i <= s@.len(),
            tag_texts(v@) == tag_texts(s@.take(i as int)),
        decreases s@.len() - i,
    {
        let c = s[i].clone();
        let ghost prev = v@;
        v.push(c);
        assert(tag_texts(v@) =~= tag_texts(prev).push(c@));
        assert(tag_texts(s@.take(i + 1)) =~= tag_texts(s@.take(i as int)).push(s@[i as int]@));
        i = i + 1;
    }
    assert(s@.take(s@.len() as int) =~= s@);
    v
}

/// The field of `u` that matches the lower-case query `q`, if any.
fn find_match(u: &DataUnit, q: &str) -> (r: Option<&'static str>)
    ensures
        match r {
            Some(f) => unit_match(*u, q@) == Some(f@),
            None => unit_match(*u, q@) is None,
        },
{
    let name = lowercase(u.yang.name.as_str());
    if text_contains(name.as_str(), q) {
        assert(unit_match(*u, q@) == Some("key"@));
        return Some("key");
    }
    let value = utf8_lossy(u.yin.payload.as_slice());
    let lower_value = lowercase(value.as_str());
    if text_contains(lower_value.as_str(), q) {
        assert(unit_match(*u, q@) == Some("value"@));
        return Some("value");
    }
    let mut k: usize = 0;
    while k < u.yang.tags.len()
        invariant
            k <= u.yang.tags@.len(),
            !has_sub(spec_lowercase(u.yang.name@), q@),
            !has_sub(spec_lowercase(value_text(*u)), q@),
            forall|j: int| 0 <= j < k ==> !has_sub(spec_lowercase(#[trigger] tag_texts(u.yang.tags@)[j]), q@),
        decreases u.yang.tags@.len() - k,
    {
        let t = lowercase(u.yang.tags[k].as_str());
        if text_contains(t.as_str(), q) {
            assert(has_sub(spec_lowercase(tag_texts(u.yang.tags@)[k as int]), q@));
            assert(unit_match(*u, q@) == Some("tag"@));
            return Some("tag");
        }
        k = k + 1;
    }
    None
}

/// The shown part of a value, or `None` where cutting it would panic.
pub fn snippet(v: &str) -> (r: Option<String>)
    ensures
        match r {
            Some(s) => snippet_of(v@) == Some(s@),
            None => snippet_of(v@) is None,
        },
{
    if v.as_bytes().len() > SNIPPET_BYTES {
        if !v.is_char_boundary(SNIPPET_BYTES) {
            return None;
        }
        let (head, _tail) = v.split_at(SNIPPET_BYTES);
        proof {
            vstd::utf8::encode_utf8_decode_utf8(head@);
        }
        let mut s = head.to_owned();
        s.append("...");
        assert(head.spec_bytes() == encode_utf8(head@));
        assert(encode_utf8(v@).take(SNIPPET_BYTES as int) == head.spec_bytes());
        assert(decode_utf8(encode_utf8(head@)) == head@);
        assert(s@ == head@ + "..."@);
        assert(is_char_boundary(encode_utf8(v@), SNIPPET_BYTES as int));
        assert(encode_utf8(v@).len() > SNIPPET_BYTES);
        assert(snippet_of(v@) == Some(decode_utf8(encode_utf8(v@).take(SNIPPET_BYTES as int)) + "..."@));
        assert(snippet_of(v@) == Some(s@));
        Some(s)
    } else {
        let s = v.to_owned();
        assert(snippet_of(v@) == Some(s@));
        Some(s)
    }
}

/// Case-insensitive substring search over `units` in order: each unit whose
/// key, value or a tag contains the query is reported with the field that
/// matched, at most `max_results` of them (the scan stops once that many
/// are reported). `None` where the original scan panics: a reported value
/// over 80 bytes whose byte 80 falls inside a character.
pub fn fuzzy_search(units: &Vec<DataUnit>, query: &str, max_results: usize) -> (hits: Option<Vec<SearchHit>>)
    ensures
        ({
            let q = spec_lowercase(query@);
            let rep = reported(units@, q, max_results as nat);
            match hits {
                Some(h) => h@.len() == rep.len() && h@.len() <= max_results && forall|t: int|
                    0 <= t < rep.len() ==> hit_ok(#[trigger] h@[t], units@[rep[t]], q),
                None => exists|t: int|
                    0 <= t < rep.len() && #[trigger] snippet_of(value_text(units@[rep[t]])) is None,
            }
        }),
{
    let q = lowercase(query);
    let ghost qv = q@;
    let ghost max = max_results as nat;
    let mut results: Vec<SearchHit> = Vec::new();
    let ghost mut acc: Seq<int> = Seq::empty();
    let mut i: usize = 0;
    proof {
        lemma_reported_within_limit(units@, qv, max);
    }
    while i < units.len()
        invariant
            i <= units@.len(),
            q@ == qv,
            qv == spec_lowercase(query@),
            max == max_results as nat,
            acc.len() <= max,
            reported(units@, qv, max) == reported_from(units@, qv, max, i as int, acc),
            results@.len() == acc.len(),
            forall|t: int| 0 <= t < acc.len() ==> 0 <= #[trigger] acc[t] < units@.len(),
            forall|t: int| 0 <= t < acc.len() ==> hit_ok(#[trigger] results@[t], units@[acc[t]], qv),
        ensures
            reported(units@, qv, max) == acc,
        decreases units@.len() - i,
    {
        if results.len() >= max_results {
            break;
        }
        let ghost acc_before = acc;
        let ghost i0 = i as int;
        let found = find_match(&units[i], q.as_str());
        let ghost acc_next = if unit_match(units@[i0], qv) is Some { acc_before.push(i0) } else { acc_before };
        proof {
            assert(reported_from(units@, qv, max, i0, acc_before) == reported_from(units@, qv, max, i0 + 1, acc_next));
        }
        match found {
            Some(field) => {
                assert(units[i as int] == units@[i0]);
                assert(unit_match(units@[i0], qv) == Some(field@));
                let value = utf8_lossy(units[i].yin.payload.as_slice());
                let shown = snippet(value.as_str());
                match shown {
                    Some(s) => {
                        let hit = SearchHit {
                            content_hash: hex_encode(&units[i].yin.content_hash),
                            key: units[i].yang.name.clone(),
                            value_snippet: s,
                            tags: copy_strings(&units[i].yang.tags),
                            created_at: units[i].yang.created_at,
                            match_field: String::from_str(field),
                        };
                        assert(hit_for(hit, units@[i0], field@));
                        let ghost r0 = results@;
                        results.push(hit);
                        proof {
                            acc = acc.push(i as int);
                            assert forall|t: int|
                                0 <= t < acc.len() implies hit_ok(#[trigger] results@[t], units@[acc[t]], qv) by {
                                if t < acc.len() - 1 {
                                    assert(results@[t] == r0[t]);
                                    assert(acc[t] == acc_before[t]);
                                }
                            }
                        }
                    },
                    None => {
                        proof {
                            let acc2 = acc_next;
                            lemma_reported_prefix(units@, qv, max, i0 + 1, acc2);
                            assert(reported(units@, qv, max).take(acc2.len() as int) == acc2);
                            assert(reported(units@, qv, max).take(acc2.len() as int)[acc_before.len() as int]
                                == reported(units@, qv, max)[acc_before.len() as int]);
                            assert(reported(units@, qv, max)[acc_before.len() as int] == i0);
                            assert(snippet_of(value_text(units@[i0])) is None);
                        }
                        return None;
                    },
                }
            },
            None => {
                assert(units[i as int] == units@[i0]);
                assert(unit_match(units@[i0], qv) is None);
            },
        }
        assert(acc == acc_next);
        i = i + 1;
    }
    Some(results)
}

} // verus!
