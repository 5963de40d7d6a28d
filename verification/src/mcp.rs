use vstd::prelude::*;
use crate::bytes::{copy_bytes, str_equal};
use vstd::string::StringSliceAdditionalSpecFns;
use crate::search::{has_sub, lowercase, spec_lowercase, spec_utf8_lossy, tag_texts, text_contains, utf8_lossy};
use crate::unit::DataUnit;

verus! {

/// JSON-RPC code of a request that does not parse.
pub const PARSE_ERROR: i32 = -32700;
/// JSON-RPC code of an unknown method.
pub const METHOD_NOT_FOUND: i32 = -32601;
/// Node id used by the invitation tool when none is given.
pub const DEFAULT_INVITE_NODE: &'static str = "mcp-node";

/// The methods the tool server answers.
#[derive(Debug, Clone, Copy, PartialEq, Eq, Structural)]
pub enum RpcMethod {
    Initialize,
    ToolsList,
    ToolsCall,
    Initialized,
    Unknown,
}

/// The tools the server offers.
#[derive(Debug, Clone, Copy, PartialEq, Eq, Structural)]
pub enum Tool {
    Put,
    Get,
    Search,
    Query,
    Delete,
    History,
    Stats,
    Invite,
    Reputation,
    Unknown,
}

/// The method a method name selects.
pub open spec fn spec_rpc_method(m: Seq<char>) -> RpcMethod {
    if m == "initialize"@ {
        RpcMethod::Initialize
    } else if m == "tools/list"@ {
        RpcMethod::ToolsList
    } else if m == "tools/call"@ {
        RpcMethod::ToolsCall
    } else if m == "notifications/initialized"@ {
        RpcMethod::Initialized
    } else {
        RpcMethod::Unknown
    }
}

/// The method a method name selects.
pub fn rpc_method(method: &str) -> (m: RpcMethod)
    ensures
        m == spec_rpc_method(method@),
{
    if str_equal(method, "initialize") {
        RpcMethod::Initialize
    } else if str_equal(method, "tools/list") {
        RpcMethod::ToolsList
    } else if str_equal(method, "tools/call") {
        RpcMethod::ToolsCall
    } else if str_equal(method, "notifications/initialized") {
        RpcMethod::Initialized
    } else {
        RpcMethod::Unknown
    }
}

/// The tool a tool name selects.
pub open spec fn spec_tool(name: Seq<char>) -> Tool {
    if name == "tao_put"@ {
        Tool::Put
    } else if name == "tao_get"@ {
        Tool::Get
    } else if name == "tao_search"@ {
        Tool::Search
    } else if name == "tao_query"@ {
        Tool::Query
    } else if name == "tao_delete"@ {
        Tool::Delete
    } else if name == "tao_history"@ {
        Tool::History
    } else if name == "tao_stats"@ {
        Tool::Stats
    } else if name == "tao_invite"@ {
        Tool::Invite
    } else if name == "tao_reputation"@ {
        Tool::Reputation
    } else {
        Tool::Unknown
    }
}

/// The tool a tool name selects.
pub fn tool_of(name: &str) -> (t: Tool)
    ensures
        t == spec_tool(name@),
{
    if str_equal(name, "tao_put") {
        Tool::Put
    } else if str_equal(name, "tao_get") {
        Tool::Get
    } else if str_equal(name, "tao_search") {
        Tool::Search
    } else if str_equal(name, "tao_query") {
        Tool::Query
    } else if str_equal(name, "tao_delete") {
        Tool::Delete
    } else if str_equal(name, "tao_history") {
        Tool::History
    } else if str_equal(name, "tao_stats") {
        Tool::Stats
    } else if str_equal(name, "tao_invite") {
        Tool::Invite
    } else if str_equal(name, "tao_reputation") {
        Tool::Reputation
    } else {
        Tool::Unknown
    }
}

/// `a` followed by `b`.
fn concat(a: &str, b: &str) -> (s: String)
    ensures
        s@ == a@ + b@,
{
    let mut s = String::from_str(a);
    s.append(b);
    s
}

/// The message of an unknown method.
pub fn method_not_found_message(method: &str) -> (s: String)
    ensures
        s@ == "Method not found: "@ + method@,
{
    concat("Method not found: ", method)
}

/// The message of a request that does not parse, with the parser's words.
pub fn parse_error_message(err: &str) -> (s: String)
    ensures
        s@ == "Parse error: "@ + err@,
{
    concat("Parse error: ", err)
}

/// The decimal digits of `n` as text.
pub open spec fn dec_text(n: nat) -> Seq<char>
    decreases n,
{
    if n < 10 {
        seq![(48 + n) as char]
    } else {
        dec_text(n / 10) + seq![(48 + n % 10) as char]
    }
}

/// The text of one decimal digit.
fn digit_text(d: u64) -> (s: &'static str)
    requires
        d < 10,
    ensures
        s@ == seq![(48 + d) as char],
{
    proof {
        reveal_strlit("0");
        reveal_strlit("1");
        reveal_strlit("2");
        reveal_strlit("3");
        reveal_strlit("4");
        reveal_strlit("5");
        reveal_strlit("6");
        reveal_strlit("7");
        reveal_strlit("8");
        reveal_strlit("9");
    }
    if d == 0 {
        "0"
    } else if d == 1 {
        "1"
    } else if d == 2 {
        "2"
    } else if d == 3 {
        "3"
    } else if d == 4 {
        "4"
    } else if d == 5 {
        "5"
    } else if d == 6 {
        "6"
    } else if d == 7 {
        "7"
    } else if d == 8 {
        "8"
    } else {
        "9"
    }
}

/// Appends the decimal digits of `n`.
pub fn push_decimal_text(s: &mut String, n: u64)
    ensures
        final(s)@ == old(s)@ + dec_text(n as nat),
    decreases n,
{
    if n >= 10 {
        push_decimal_text(s, n / 10);
    }
    s.append(digit_text(n % 10));
    assert(s@ =~= old(s)@ + dec_text(n as nat));
}

/// Whether `u` answers the search tool's query `q` (already lower-case): its
/// name, its value, or its tags joined by spaces contain it, each in lower
/// case.
pub open spec fn mcp_matches(u: DataUnit, q: Seq<char>) -> bool {
    has_sub(spec_lowercase(u.yang.name@), q) || has_sub(spec_lowercase(spec_utf8_lossy(u.yin.payload@)), q)
        || has_sub(joined(lower_all(tag_texts(u.yang.tags@))), q)
}

/// Each text in lower case.
pub open spec fn lower_all(s: Seq<Seq<char>>) -> Seq<Seq<char>> {
    s.map_values(|t: Seq<char>| spec_lowercase(t))
}

/// The texts joined with single spaces.
pub open spec fn joined(s: Seq<Seq<char>>) -> Seq<char>
    decreases s.len(),
{
    if s.len() == 0 {
        Seq::empty()
    } else if s.len() == 1 {
        s[0]
    } else {
        joined(s.drop_last()) + " "@ + s.last()
    }
}

/// The units' tags, lower-cased and joined with spaces.
pub(crate) fn joined_lower_tags(tags: &Vec<String>) -> (s: String)
    ensures
        s@ == joined(lower_all(tag_texts(tags@))),
{
    let mut s = String::new();
    let mut i: usize = 0;
    while i < tags.len()
        invariant
            i <= tags@.len(),
            s@ == joined(lower_all(tag_texts(tags@.take(i as int)))),
        decreases tags@.len() - i,
    {
        let t = lowercase(tags[i].as_str());
        let ghost prev = s@;
        if i > 0 {
            s.append(" ");
        }
        s.append(t.as_str());
        proof {
            let l = lower_all(tag_texts(tags@.take(i + 1)));
            assert(l.drop_last() =~= lower_all(tag_texts(tags@.take(i as int))));
            assert(l.last() == t@);
            if i == 0 {
                assert(l =~= seq![t@]);
            }
        }
        i = i + 1;
    }
    assert(tags@.take(tags@.len() as int) =~= tags@);
    s
}

/// The names of the units matching the search tool's query, in order.
pub open spec fn mcp_search_names(units: Seq<DataUnit>, q: Seq<char>) -> Seq<Seq<char>> {
    units.filter(|u: DataUnit| mcp_matches(u, q)).map_values(|u: DataUnit| u.yang.name@)
}

/// Each text of `s` stands in the joined text.
proof fn lemma_joined_holds(s: Seq<Seq<char>>, k: int)
    requires
        0 <= k < s.len(),
    ensures
        exists|off: int|
            0 <= off && off + s[k].len() <= joined(s).len() && #[trigger] joined(s).subrange(off, off + s[k].len())
                == s[k],
    decreases s.len(),
{
    reveal_strlit(" ");
    if s.len() == 1 {
        assert(joined(s) == s[0]);
        assert(joined(s).subrange(0, s[k].len() as int) =~= s[k]);
        assert(0 <= 0int && 0int + s[k].len() <= joined(s).len() && joined(s).subrange(0int, 0int + s[k].len()) == s[k]);
    } else if k == s.len() - 1 {
        let p = joined(s.drop_last()) + " "@;
        let off = p.len() as int;
        assert(joined(s) == p + s.last());
        assert(joined(s).subrange(off, off + s[k].len()) =~= s[k]);
        assert(0 <= off && off + s[k].len() <= joined(s).len() && joined(s).subrange(off, off + s[k].len()) == s[k]);
    } else {
        let d = s.drop_last();
        lemma_joined_holds(d, k);
        let off = choose|off: int|
            0 <= off && off + d[k].len() <= joined(d).len() && #[trigger] joined(d).subrange(off, off + d[k].len())
                == d[k];
        assert(joined(s) == joined(d) + " "@ + s.last());
        assert(d[k] == s[k]);
        assert(joined(s).subrange(off, off + s[k].len()) =~= joined(d).subrange(off, off + d[k].len()));
        assert(0 <= off && off + s[k].len() <= joined(s).len() && joined(s).subrange(off, off + s[k].len()) == s[k]);
    }
}

/// A text that holds `x` holds whatever `x` holds.
proof fn lemma_has_sub_within(h: Seq<char>, x: Seq<char>, off: int, q: Seq<char>)
    requires
        0 <= off && off + x.len() <= h.len(),
        h.subrange(off, off + x.len()) == x,
        has_sub(x, q),
    ensures
        has_sub(h, q),
{
    let i = choose|i: int| 0 <= i && i + q.len() <= x.len() && #[trigger] x.subrange(i, i + q.len()) == q;
    assert(h.subrange(off + i, off + i + q.len()) =~= x.subrange(i, i + q.len()));
}

/// The search tool lists every unit whose name, value text or one of whose
/// tags, lower-cased, contains the (lower-case) query; and every name it
/// lists is that of a unit of the store.
pub proof fn lemma_search_tool_lists_matches(units: Seq<DataUnit>, q: Seq<char>, i: int)
    requires
        0 <= i < units.len(),
        has_sub(spec_lowercase(units[i].yang.name@), q) || has_sub(
            spec_lowercase(spec_utf8_lossy(units[i].yin.payload@)),
            q,
        ) || exists|k: int|
            0 <= k < units[i].yang.tags@.len() && has_sub(spec_lowercase(#[trigger] units[i].yang.tags@[k]@), q),
    ensures
        mcp_search_names(units, q).contains(units[i].yang.name@),
{
    let u = units[i];
    if !has_sub(spec_lowercase(u.yang.name@), q) && !has_sub(spec_lowercase(spec_utf8_lossy(u.yin.payload@)), q) {
        let k = choose|k: int| 0 <= k < u.yang.tags@.len() && has_sub(spec_lowercase(#[trigger] u.yang.tags@[k]@), q);
        let l = lower_all(tag_texts(u.yang.tags@));
        assert(l[k] == spec_lowercase(u.yang.tags@[k]@));
        lemma_joined_holds(l, k);
        let off = choose|off: int|
            0 <= off && off + l[k].len() <= joined(l).len() && #[trigger] joined(l).subrange(off, off + l[k].len())
                == l[k];
        lemma_has_sub_within(joined(l), l[k], off, q);
    }
    assert(mcp_matches(u, q));
    let pred = |v: DataUnit| mcp_matches(v, q);
    units.lemma_filter_contains(pred, i);
    let f = units.filter(pred);
    let j = choose|j: int| 0 <= j < f.len() && f[j] == u;
    assert(mcp_search_names(units, q)[j] == u.yang.name@);
}

/// Every name the search tool lists is that of a unit whose name, value
/// text, or tags joined by spaces, lower-cased, contain the query; and it
/// lists no more names than there are units.
pub proof fn lemma_search_tool_lists_only_matches(units: Seq<DataUnit>, q: Seq<char>, t: int)
    requires
        0 <= t < mcp_search_names(units, q).len(),
    ensures
        mcp_search_names(units, q).len() <= units.len(),
        exists|i: int|
            0 <= i < units.len() && #[trigger] units[i].yang.name@ == mcp_search_names(units, q)[t] && (has_sub(
                spec_lowercase(units[i].yang.name@),
                q,
            ) || has_sub(spec_lowercase(spec_utf8_lossy(units[i].yin.payload@)), q) || has_sub(
                joined(lower_all(tag_texts(units[i].yang.tags@))),
                q,
            )),
{
    let pred = |v: DataUnit| mcp_matches(v, q);
    let f = units.filter(pred);
    units.lemma_filter_len(pred);
    units.lemma_filter_pred(pred, t);
    assert(f.contains(f[t]));
    units.lemma_filter_contains_rev(pred, f[t]);
    let i = choose|i: int| 0 <= i < units.len() && units[i] == f[t];
    assert(units[i].yang.name@ == mcp_search_names(units, q)[t]);
}

/// The reply of the search tool: no hit, or the count and one name per line.
pub open spec fn search_reply(q: Seq<char>, names: Seq<Seq<char>>) -> Seq<char> {
    if names.len() == 0 {
        "📭 未找到匹配 '"@ + q + "'"@
    } else {
        "🔍 找到 "@ + dec_text(names.len()) + " 条:\n"@ + joined_lines(names)
    }
}

/// The texts joined with line breaks.
pub open spec fn joined_lines(s: Seq<Seq<char>>) -> Seq<char>
    decreases s.len(),
{
    if s.len() == 0 {
        Seq::empty()
    } else if s.len() == 1 {
        s[0]
    } else {
        joined_lines(s.drop_last()) + "\n"@ + s.last()
    }
}

/// The search tool: the query is lower-cased; an empty query is refused;
/// otherwise the names of the units whose name, value or tags contain it.
pub fn tool_search(units: &Vec<DataUnit>, query: &str) -> (reply: String)
    ensures
        ({
            let q = spec_lowercase(query@);
            reply@ == if q.len() == 0 {
                "❌ 搜索词不能为空"@
            } else {
                search_reply(q, mcp_search_names(units@, q))
            }
        }),
{
    let q = lowercase(query);
    if q.as_str().is_empty() {
        return String::from_str("❌ 搜索词不能为空");
    }
    let ghost pred = |u: DataUnit| mcp_matches(u, q@);
    let mut names: Vec<String> = Vec::new();
    let mut i: usize = 0;
    while i < units.len()
        invariant
            i <= units@.len(),
            pred == (|u: DataUnit| mcp_matches(u, q@)),
            tag_texts(names@) == units@.take(i as int).filter(pred).map_values(|u: DataUnit| u.yang.name@),
        decreases units@.len() - i,
    {
        let u = &units[i];
        let name = lowercase(u.yang.name.as_str());
        let value = utf8_lossy(u.yin.payload.as_slice());
        let lower_value = lowercase(value.as_str());
        let tags = joined_lower_tags(&u.yang.tags);
        let hit = text_contains(name.as_str(), q.as_str()) || text_contains(lower_value.as_str(), q.as_str())
            || text_contains(tags.as_str(), q.as_str());
        let ghost prev = names@;
        proof {
            assert(units@.take(i + 1).drop_last() =~= units@.take(i as int));
            assert(units@.take(i + 1).last() == *u);
            reveal_with_fuel(Seq::filter, 1);
            assert(hit == pred(*u));
        }
        if hit {
            names.push(u.yang.name.clone());
            proof {
                assert(tag_texts(names@) =~= tag_texts(prev).push(u.yang.name@));
            }
        } else {
            proof {
                assert(tag_texts(names@) =~= tag_texts(prev));
            }
        }
        i = i + 1;
    }
    proof {
        assert(units@.take(units@.len() as int) =~= units@);
    }
    if names.len() == 0 {
        let mut s = String::from_str("📭 未找到匹配 '");
        s.append(q.as_str());
        s.append("'");
        return s;
    }
    let mut s = String::from_str("🔍 找到 ");
    push_decimal_text(&mut s, names.len() as u64);
    s.append(" 条:\n");
    let mut j: usize = 0;
    let ghost head = s@;
    while j < names.len()
        invariant
            j <= names@.len(),
            s@ == head + joined_lines(tag_texts(names@.take(j as int))),
        decreases names@.len() - j,
    {
        let ghost before = s@;
        if j > 0 {
            s.append("\n");
        }
        s.append(names[j].as_str());
        proof {
            let l = tag_texts(names@.take(j + 1));
            assert(l.drop_last() =~= tag_texts(names@.take(j as int)));
            assert(l.last() == names@[j as int]@);
            if j == 0 {
                assert(l =~= seq![names@[0]@]);
                assert(joined_lines(tag_texts(names@.take(0))) =~= Seq::<char>::empty());
            }
        }
        j = j + 1;
    }
    proof {
        assert(names@.take(names@.len() as int) =~= names@);
    }
    s
}

/// Whether a unit is named `key`.
pub open spec fn named_pred(key: Seq<char>) -> spec_fn(DataUnit) -> bool {
    |u: DataUnit| u.yang.name@ == key
}

/// The reply of the get tool: an empty key is refused; otherwise the value
/// of the first unit with that name, or a not-found note.
pub open spec fn get_reply(units: Seq<DataUnit>, key: Seq<char>) -> Seq<char> {
    if key.len() == 0 {
        "❌ key 不能为空"@
    } else {
        let named = units.filter(named_pred(key));
        if named.len() > 0 {
            spec_utf8_lossy(named[0].yin.payload@)
        } else {
            "❌ '"@ + key + "' 未找到"@
        }
    }
}

/// The get tool.
pub fn tool_get(units: &Vec<DataUnit>, key: &str) -> (reply: String)
    ensures
        reply@ == get_reply(units@, key@),
{
    if key.is_empty() {
        return String::from_str("❌ key 不能为空");
    }
    let ghost pred = named_pred(key@);
    let mut i: usize = 0;
    while i < units.len()
        invariant
            i <= units@.len(),
            pred == named_pred(key@),
            key@.len() > 0,
            units@.take(i as int).filter(pred).len() == 0,
        decreases units@.len() - i,
    {
        proof {
            assert(units@.take(i + 1).drop_last() =~= units@.take(i as int));
            reveal_with_fuel(Seq::filter, 1);
        }
        if str_equal(units[i].yang.name.as_str(), key) {
            proof {
                assert(pred(units@[i as int]));
                lemma_filter_first(units@, pred, i as int);
                assert(units@.filter(pred).len() > 0);
            }
            let r = utf8_lossy(units[i].yin.payload.as_slice());
            assert(r@ == get_reply(units@, key@));
            return r;
        }
        i = i + 1;
    }
    proof {
        assert(units@.take(units@.len() as int) =~= units@);
    }
    let mut s = String::from_str("❌ '");
    s.append(key);
    s.append("' 未找到");
    assert(units@.filter(pred).len() == 0);
    assert(s@ == get_reply(units@, key@));
    s
}

/// When no item before `i` passes and item `i` does, the first item that
/// passes is item `i`.
proof fn lemma_filter_first(s: Seq<DataUnit>, pred: spec_fn(DataUnit) -> bool, i: int)
    requires
        0 <= i < s.len(),
        s.take(i).filter(pred).len() == 0,
        pred(s[i]),
    ensures
        s.filter(pred).len() > 0,
        s.filter(pred)[0] == s[i],
    decreases s.len() - i,
{
    reveal_with_fuel(Seq::filter, 1);
    let d = s.drop_last();
    if i == s.len() - 1 {
        assert(s.take(i) =~= d);
        assert(s.last() == s[i]);
        assert(s.filter(pred) == d.filter(pred).push(s.last()));
    } else {
        assert(d.take(i) =~= s.take(i));
        assert(d[i] == s[i]);
        lemma_filter_first(d, pred, i);
        let f = d.filter(pred);
        if pred(s.last()) {
            assert(s.filter(pred) == f.push(s.last()));
            assert(s.filter(pred)[0] == f[0]);
        } else {
            assert(s.filter(pred) == f);
        }
    }
}

/// The all-zero owner key.
pub open spec fn no_owner() -> Seq<u8> {
    Seq::new(32, |i: int| 0u8)
}

/// The put tool's unit: refused when the key or the value is empty;
/// otherwise a new unit holding the value's bytes under the key, owned by
/// nobody.
pub fn tool_put_unit(key: &str, value: &str) -> (r: Result<DataUnit, String>)
    ensures
        match r {
            Ok(u) => key@.len() > 0 && value@.len() > 0 && exists|now: u64|
                #[trigger] u.is_fresh(value.spec_bytes(), key@, no_owner(), now),
            Err(e) => (key@.len() == 0 || value@.len() == 0) && e@ == "❌ key 和 value 不能为空"@,
        },
{
    if key.is_empty() || value.is_empty() {
        return Err(String::from_str("❌ key 和 value 不能为空"));
    }
    let payload = copy_bytes(value.as_bytes());
    let owner = [0u8; 32];
    assert(owner@ =~= no_owner());
    Ok(DataUnit::new(payload, String::from_str(key), owner))
}

/// The put tool's reply once the unit is stored.
pub fn put_reply(key: &str, id: &str) -> (s: String)
    ensures
        s@ == "✅ 已存储 ["@ + key@ + "] → "@ + id@,
{
    let mut s = String::from_str("✅ 已存储 [");
    s.append(key);
    s.append("] → ");
    s.append(id);
    s
}

/// The content hashes of the units named `key`, in order.
pub open spec fn named_hashes(units: Seq<DataUnit>, key: Seq<char>) -> Seq<Seq<u8>> {
    units.filter(named_pred(key)).map_values(|u: DataUnit| u.yin.content_hash@)
}

/// The content hashes of the units named `key`, in order.
pub fn named_targets(units: &Vec<DataUnit>, key: &str) -> (v: Vec<[u8; 32]>)
    ensures
        v@.map_values(|h: [u8; 32]| h@) == named_hashes(units@, key@),
{
    let ghost pred = named_pred(key@);
    let mut v: Vec<[u8; 32]> = Vec::new();
    let mut i: usize = 0;
    while i < units.len()
        invariant
            i <= units@.len(),
            pred == named_pred(key@),
            v@.map_values(|h: [u8; 32]| h@) == units@.take(i as int).filter(pred).map_values(
                |u: DataUnit| u.yin.content_hash@,
            ),
        decreases units@.len() - i,
    {
        let ghost prev = v@;
        proof {
            assert(units@.take(i + 1).drop_last() =~= units@.take(i as int));
            assert(units@.take(i + 1).last() == units@[i as int]);
            reveal_with_fuel(Seq::filter, 1);
        }
        if str_equal(units[i].yang.name.as_str(), key) {
            v.push(units[i].yin.content_hash);
            proof {
                assert(v@.map_values(|h: [u8; 32]| h@) =~= prev.map_values(|h: [u8; 32]| h@).push(
                    units@[i as int].yin.content_hash@,
                ));
            }
        } else {
            proof {
                assert(v@.map_values(|h: [u8; 32]| h@) =~= prev.map_values(|h: [u8; 32]| h@));
            }
        }
        i = i + 1;
    }
    proof {
        assert(units@.take(units@.len() as int) =~= units@);
    }
    v
}

/// The delete tool's targets: refused for an empty key; otherwise the
/// content hashes of the units named `key`.
pub fn tool_delete_targets(units: &Vec<DataUnit>, key: &str) -> (r: Result<Vec<[u8; 32]>, String>)
    ensures
        match r {
            Ok(v) => key@.len() > 0 && v@.map_values(|h: [u8; 32]| h@) == named_hashes(units@, key@),
            Err(e) => key@.len() == 0 && e@ == "❌ key 不能为空"@,
        },
{
    if key.is_empty() {
        return Err(String::from_str("❌ key 不能为空"));
    }
    Ok(named_targets(units, key))
}

/// The delete tool's reply: how many units went.
pub fn delete_reply(deleted: u64, key: &str) -> (s: String)
    ensures
        s@ == "✅ 已删除 "@ + dec_text(deleted as nat) + " 条 '"@ + key@ + "'"@,
{
    let mut s = String::from_str("✅ 已删除 ");
    push_decimal_text(&mut s, deleted);
    s.append(" 条 '");
    s.append(key);
    s.append("'");
    s
}

/// The stats tool's reply.
pub fn stats_reply(count: u64) -> (s: String)
    ensures
        s@ == "📊 总条数: "@ + dec_text(count as nat),
{
    let mut s = String::from_str("📊 总条数: ");
    push_decimal_text(&mut s, count);
    s
}

/// The query tool's reply.
pub fn query_reply(expression: &str) -> (s: String)
    ensures
        s@ == "🔍 查询 '"@ + expression@ + "' (完整查询引擎待构建)"@,
{
    let mut s = String::from_str("🔍 查询 '");
    s.append(expression);
    s.append("' (完整查询引擎待构建)");
    s
}

/// The invitation tool's reply.
pub fn invite_reply(node_id: &str) -> (s: String)
    ensures
        s@ == "🔗 邀请码已生成 (功能待集成): "@ + node_id@,
{
    concat("🔗 邀请码已生成 (功能待集成): ", node_id)
}

/// The reply to an unknown tool.
pub fn unknown_tool_reply(name: &str) -> (s: String)
    ensures
        s@ == "❌ 未知工具: "@ + name@,
{
    concat("❌ 未知工具: ", name)
}

/// The reply when the store cannot be opened, with the store's words.
pub fn store_error_reply(err: &str) -> (s: String)
    ensures
        s@ == "❌ 存储错误: "@ + err@,
{
    concat("❌ 存储错误: ", err)
}

} // verus!
