use vstd::prelude::*;
use vstd::string::StrSliceExecFns;
use crate::backup::{count_names, counted, lemma_distinct_members};
use crate::query::{find_char_from, lemma_find_char_bounds};
use crate::search::{chars_of, tag_texts};

verus! {

/// The tag index's forward key of a tagged unit: "ti:{tag}:{hash}".
pub open spec fn forward_key_text(tag: Seq<char>, hash: Seq<char>) -> Seq<char> {
    "ti:"@ + tag + ":"@ + hash
}

/// The tag index's reverse key of a tagged unit: "ri:{hash}:{tag}".
pub open spec fn reverse_key_text(hash: Seq<char>, tag: Seq<char>) -> Seq<char> {
    "ri:"@ + hash + ":"@ + tag
}

/// `a`, `b` and `c` one after the other.
fn join3(a: &str, b: &str, c: &str) -> (s: String)
    ensures
        s@ == a@ + b@ + c@,
{
    let mut s = String::from_str(a);
    s.append(b);
    s.append(c);
    s
}

/// The forward key of `tag` on the unit with hexadecimal hash `hash_hex`.
pub fn forward_key(tag: &str, hash_hex: &str) -> (k: String)
    ensures
        k@ == forward_key_text(tag@, hash_hex@),
{
    let mut k = join3("ti:", tag, ":");
    k.append(hash_hex);
    k
}

/// The start shared by the forward keys of `tag`: "ti:{tag}:".
pub fn forward_prefix(tag: &str) -> (p: String)
    ensures
        p@ == "ti:"@ + tag@ + ":"@,
{
    join3("ti:", tag, ":")
}

/// The reverse key of `tag` on the unit with hexadecimal hash `hash_hex`.
pub fn reverse_key(hash_hex: &str, tag: &str) -> (k: String)
    ensures
        k@ == reverse_key_text(hash_hex@, tag@),
{
    let mut k = join3("ri:", hash_hex, ":");
    k.append(tag);
    k
}

/// The start shared by the reverse keys of a unit: "ri:{hash}:".
pub fn reverse_prefix(hash_hex: &str) -> (p: String)
    ensures
        p@ == "ri:"@ + hash_hex@ + ":"@,
{
    join3("ri:", hash_hex, ":")
}

/// The position after the last `c` in `s.take(j)`, or 0 when there is none.
pub open spec fn after_last(s: Seq<char>, c: char, j: int) -> int
    decreases j,
{
    if j <= 0 {
        0
    } else if s[j - 1] == c {
        j
    } else {
        after_last(s, c, j - 1)
    }
}

/// The hash a forward key names: its text after the last ':' (all of it
/// when there is none).
pub open spec fn key_hash_text(key: Seq<char>) -> Seq<char> {
    key.skip(after_last(key, ':', key.len() as int))
}

/// The hash a forward key names (see `key_hash_text`).
pub fn key_hash(key: &str) -> (h: String)
    ensures
        h@ == key_hash_text(key@),
{
    let v = chars_of(key);
    let n = v.len();
    let mut j: usize = n;
    while j > 0 && v[j - 1] != ':'
        invariant
            v@ == key@,
            n == v@.len(),
            j <= n,
            after_last(key@, ':', j as int) == after_last(key@, ':', n as int),
        decreases j,
    {
        j = j - 1;
    }
    let rest = key.substring_char(j, n);
    assert(rest@ =~= key@.skip(j as int));
    rest.to_owned()
}

/// The tag a forward key names: its text between the first and the second
/// ':' (to the end when there is no second); `None` without any ':'.
pub open spec fn key_tag_text(key: Seq<char>) -> Option<Seq<char>> {
    match find_char_from(key, ':', 0) {
        None => None,
        Some(a) => match find_char_from(key, ':', a + 1) {
            Some(b) => Some(key.subrange(a + 1, b)),
            None => Some(key.skip(a + 1)),
        },
    }
}

/// The first position from `from` on in `v` that holds `c`.
fn find_from(v: &Vec<char>, c: char, from: usize) -> (r: Option<usize>)
    requires
        from <= v@.len(),
    ensures
        match r {
            Some(k) => find_char_from(v@, c, from as int) == Some(k as int),
            None => find_char_from(v@, c, from as int) is None,
        },
{
    let mut i: usize = from;
    while i < v.len()
        invariant
            from <= i <= v@.len(),
            find_char_from(v@, c, i as int) == find_char_from(v@, c, from as int),
        decreases v@.len() - i,
    {
        if v[i] == c {
            return Some(i);
        }
        i = i + 1;
    }
    None
}

/// The tag a forward key names (see `key_tag_text`).
pub fn key_tag(key: &str) -> (t: Option<String>)
    ensures
        match t {
            Some(s) => key_tag_text(key@) == Some(s@),
            None => key_tag_text(key@) is None,
        },
{
    let v = chars_of(key);
    let n = v.len();
    let a = match find_from(&v, ':', 0) {
        Some(a) => a,
        None => {
            return None;
        },
    };
    proof {
        lemma_find_char_bounds(key@, ':', 0);
    }
    match find_from(&v, ':', a + 1) {
        Some(b) => {
            proof {
                lemma_find_char_bounds(key@, ':', a + 1);
            }
            Some(key.substring_char(a + 1, b).to_owned())
        },
        None => {
            let rest = key.substring_char(a + 1, n);
            assert(rest@ =~= key@.skip(a + 1));
            Some(rest.to_owned())
        },
    }
}

/// `a` comes before `b` in string order (character by character, a proper
/// prefix first).
pub open spec fn text_lt(a: Seq<char>, b: Seq<char>) -> bool
    decreases a.len(),
{
    if a.len() == 0 {
        b.len() > 0
    } else if b.len() == 0 {
        false
    } else if a[0] != b[0] {
        (a[0] as u32) < (b[0] as u32)
    } else {
        text_lt(a.drop_first(), b.drop_first())
    }
}

pub(crate) proof fn lemma_text_lt_strict(a: Seq<char>, b: Seq<char>)
    ensures
        text_lt(a, b) ==> !text_lt(b, a) && a != b,
    decreases a.len(),
{
    if a.len() > 0 && b.len() > 0 && a[0] == b[0] {
        lemma_text_lt_strict(a.drop_first(), b.drop_first());
        if a == b {
            assert(a.drop_first() == b.drop_first());
        }
    }
}

pub(crate) proof fn lemma_text_lt_total(a: Seq<char>, b: Seq<char>)
    requires
        a != b,
    ensures
        text_lt(a, b) || text_lt(b, a),
    decreases a.len(),
{
    if a.len() == 0 {
        if b.len() == 0 {
            assert(a =~= b);
        }
    } else if b.len() > 0 {
        if a[0] == b[0] {
            if a.drop_first() == b.drop_first() {
                assert(a =~= seq![a[0]] + a.drop_first());
                assert(b =~= seq![b[0]] + b.drop_first());
            }
            lemma_text_lt_total(a.drop_first(), b.drop_first());
        } else {
            vstd::utf8::char_u32_cast(a[0], a[0] as u32);
            vstd::utf8::char_u32_cast(b[0], b[0] as u32);
        }
    }
}

pub(crate) proof fn lemma_text_lt_trans(a: Seq<char>, b: Seq<char>, c: Seq<char>)
    requires
        text_lt(a, b),
        text_lt(b, c),
    ensures
        text_lt(a, c),
    decreases a.len(),
{
    if a.len() > 0 && b.len() > 0 && c.len() > 0 && a[0] == b[0] && b[0] == c[0] {
        lemma_text_lt_trans(a.drop_first(), b.drop_first(), c.drop_first());
    }
}

/// Whether `a` comes before `b` in string order.
pub fn text_less(a: &str, b: &str) -> (r: bool)
    ensures
        r == text_lt(a@, b@),
{
    let va = chars_of(a);
    let vb = chars_of(b);
    assert(a@.skip(0) =~= a@);
    assert(b@.skip(0) =~= b@);
    let mut i: usize = 0;
    while i < va.len() && i < vb.len() && va[i] == vb[i]
        invariant
            va@ == a@,
            vb@ == b@,
            i <= va@.len(),
            i <= vb@.len(),
            text_lt(a@, b@) == text_lt(a@.skip(i as int), b@.skip(i as int)),
        decreases va@.len() - i,
    {
        assert(a@.skip(i as int).drop_first() =~= a@.skip(i + 1));
        assert(b@.skip(i as int).drop_first() =~= b@.skip(i + 1));
        i = i + 1;
    }
    if i == va.len() {
        i < vb.len()
    } else if i == vb.len() {
        false
    } else {
        (va[i] as u32) < (vb[i] as u32)
    }
}

/// Tag cloud order: more uses first; equal counts in string order.
pub open spec fn cloud_before(x: (Seq<char>, nat), y: (Seq<char>, nat)) -> bool {
    x.1 > y.1 || (x.1 == y.1 && text_lt(x.0, y.0))
}

proof fn lemma_cloud_total(x: (Seq<char>, nat), y: (Seq<char>, nat))
    requires
        x.0 != y.0,
    ensures
        cloud_before(x, y) || cloud_before(y, x),
        !(cloud_before(x, y) && cloud_before(y, x)),
{
    lemma_text_lt_total(x.0, y.0);
    lemma_text_lt_strict(x.0, y.0);
}

proof fn lemma_cloud_trans(x: (Seq<char>, nat), y: (Seq<char>, nat), z: (Seq<char>, nat))
    requires
        cloud_before(x, y),
        cloud_before(y, z),
    ensures
        cloud_before(x, z),
{
    if x.1 == y.1 && y.1 == z.1 {
        lemma_text_lt_trans(x.0, y.0, z.0);
    }
}

/// The tags named by the keys that name one, in order.
pub open spec fn key_tags(keys: Seq<Seq<char>>) -> Seq<Seq<char>>
    decreases keys.len(),
{
    if keys.len() == 0 {
        Seq::empty()
    } else {
        match key_tag_text(keys.last()) {
            Some(t) => key_tags(keys.drop_last()).push(t),
            None => key_tags(keys.drop_last()),
        }
    }
}

/// The texts and counts of a tag cloud.
pub open spec fn cloud_view(c: Seq<(String, usize)>) -> Seq<(Seq<char>, nat)> {
    c.map_values(|p: (String, usize)| (p.0@, p.1 as nat))
}

/// The tag cloud of the forward keys `keys`: each tag they name with how
/// many keys name it, in tag cloud order (see `cloud_before`).
pub fn cloud_counts(keys: &Vec<String>) -> (cloud: Vec<(String, usize)>)
    ensures
        ({
            let c = counted(key_tags(tag_texts(keys@)));
            let v = cloud_view(cloud@);
            &&& v.len() == c.len()
            &&& forall|i: int| 0 <= i < v.len() ==> c.contains(#[trigger] v[i])
            &&& forall|x: (Seq<char>, nat)| c.contains(x) ==> #[trigger] v.contains(x)
            &&& forall|i: int, j: int| 0 <= i < j < v.len() ==> cloud_before(#[trigger] v[i], #[trigger] v[j])
        }),
{
    let mut tags: Vec<String> = Vec::new();
    let mut i: usize = 0;
    while i < keys.len()
        invariant
            i <= keys@.len(),
            tag_texts(tags@) == key_tags(tag_texts(keys@).take(i as int)),
        decreases keys@.len() - i,
    {
        let ghost prev = tags@;
        proof {
            assert(tag_texts(keys@).take(i + 1).drop_last() =~= tag_texts(keys@).take(i as int));
            assert(tag_texts(keys@).take(i + 1).last() == keys@[i as int]@);
        }
        match key_tag(keys[i].as_str()) {
            Some(t) => {
                tags.push(t);
                assert(tag_texts(tags@) =~= tag_texts(prev).push(tags@.last()@));
            },
            None => {},
        }
        i = i + 1;
    }
    assert(tag_texts(keys@).take(keys@.len() as int) =~= tag_texts(keys@));
    let ghost s = key_tags(tag_texts(keys@));
    let ghost c = counted(s);
    let counts = count_names(&tags);
    proof {
        lemma_distinct_members(s);
    }
    let mut cloud: Vec<(String, usize)> = Vec::new();
    let mut k: usize = 0;
    while k < counts.len()
        invariant
            counts@.len() == c.len(),
            forall|t: int|
                0 <= t < counts@.len() ==> (#[trigger] counts@[t]).0@ == c[t].0 && counts@[t].1 == c[t].1,
            c == counted(s),
            crate::backup::distinct(s).no_duplicates(),
            k <= counts@.len(),
            cloud@.len() == k,
            forall|a: int| 0 <= a < cloud@.len() ==> exists|t: int| 0 <= t < k && #[trigger] cloud_view(cloud@)[a] == c[t],
            forall|t: int| 0 <= t < k ==> #[trigger] cloud_view(cloud@).contains(c[t]),
            forall|a: int, b: int|
                0 <= a < b < cloud@.len() ==> cloud_before(#[trigger] cloud_view(cloud@)[a], #[trigger] cloud_view(cloud@)[b]),
        decreases counts@.len() - k,
    {
        let ghost v = cloud_view(cloud@);
        let ghost x = c[k as int];
        let tag = counts[k].0.clone();
        let n = counts[k].1;
        proof {
            assert(c[k as int].0 == crate::backup::distinct(s)[k as int]);
            assert forall|a: int| 0 <= a < v.len() implies v[a].0 != x.0 by {
                let t = choose|t: int| 0 <= t < k && v[a] == c[t];
                assert(c[t].0 == crate::backup::distinct(s)[t]);
            }
        }
        let mut pos: usize = 0;
        while pos < cloud.len() && !(n > cloud[pos].1 || (n == cloud[pos].1 && text_less(tag.as_str(), cloud[pos].0.as_str())))
            invariant
                v == cloud_view(cloud@),
                x == (tag@, n as nat),
                pos <= cloud@.len(),
                forall|a: int| 0 <= a < pos ==> !cloud_before(x, #[trigger] v[a]),
            decreases cloud@.len() - pos,
        {
            pos = pos + 1;
        }
        proof {
            assert forall|a: int| 0 <= a < pos implies cloud_before(#[trigger] v[a], x) by {
                lemma_cloud_total(v[a], x);
            }
            if pos < v.len() {
                assert(cloud_before(x, v[pos as int]));
                assert forall|b: int| pos < b < v.len() implies cloud_before(x, #[trigger] v[b]) by {
                    lemma_cloud_trans(x, v[pos as int], v[b]);
                }
            }
        }
        cloud.insert(pos, (tag, n));
        proof {
            let w = cloud_view(cloud@);
            assert(w =~= v.insert(pos as int, x));
            assert(w.len() == v.len() + 1);
            assert forall|a: int| 0 <= a < pos implies #[trigger] w[a] == v[a] by {}
            assert forall|a: int| pos <= a < v.len() implies #[trigger] w[a + 1] == v[a] by {}
            assert(w[pos as int] == x);
            assert forall|a: int, b: int| 0 <= a < b < w.len() implies cloud_before(#[trigger] w[a], #[trigger] w[b]) by {
                if b < pos {
                    assert(w[a] == v[a] && w[b] == v[b]);
                } else if b == pos {
                    assert(w[a] == v[a]);
                } else if a < pos {
                    assert(w[a] == v[a] && w[b] == v[b - 1]);
                    if pos < v.len() {
                        lemma_cloud_trans(v[a], x, v[b - 1]);
                    }
                } else if a == pos {
                    assert(w[b] == v[b - 1]);
                } else {
                    assert(w[a] == v[a - 1] && w[b] == v[b - 1]);
                }
            }
            assert forall|a: int| 0 <= a < w.len() implies exists|t: int| 0 <= t < k + 1 && #[trigger] w[a] == c[t] by {
                if a < pos {
                    assert(w[a] == v[a]);
                } else if a == pos {
                    assert(w[a] == c[k as int]);
                } else {
                    assert(w[a] == v[a - 1]);
                }
            }
            assert forall|t: int| 0 <= t < k + 1 implies #[trigger] w.contains(c[t]) by {
                if t < k {
                    assert(v.contains(c[t]));
                    let a = choose|a: int| 0 <= a < v.len() && v[a] == c[t];
                    if a < pos {
                        assert(w[a] == v[a]);
                    } else {
                        assert(w[a + 1] == v[a]);
                    }
                } else {
                    assert(w[pos as int] == c[t]);
                }
            }
        }
        k = k + 1;
    }
    proof {
        let v = cloud_view(cloud@);
        assert forall|a: int| 0 <= a < v.len() implies c.contains(#[trigger] v[a]) by {
            let t = choose|t: int| 0 <= t < k && v[a] == c[t];
        }
        assert forall|x: (Seq<char>, nat)| c.contains(x) implies #[trigger] v.contains(x) by {
            let t = choose|t: int| 0 <= t < c.len() && c[t] == x;
        }
    }
    cloud
}

} // verus!
