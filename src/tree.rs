//! Grouping records into collections, titles and tabs, and ordering the result.

use vstd::prelude::*;
use vstd::utf8::encode_utf8;
use crate::document::str_eq;
use crate::record::{ParsedEntry, Record, RecordView};

verus! {

/// Records that share a tab name within one title.
pub struct TabNode {
    pub name: String,
    pub items: Vec<Record>,
}

/// The tabs of one title, with the title's resolved episode number.
pub struct TitleNode {
    pub name: String,
    pub episode_number: Option<u32>,
    pub tabs: Vec<TabNode>,
}

/// The titles that share a collection name.
pub struct CollectionNode {
    pub name: String,
    pub titles: Vec<TitleNode>,
}

pub open spec fn collection_key(e: ParsedEntry) -> Seq<char> {
    e.record.collection_title@
}

pub open spec fn title_key(e: ParsedEntry) -> Seq<char> {
    e.record.title@
}

pub open spec fn tab_key(e: ParsedEntry) -> Seq<char> {
    e.record.tab_name@
}

/// Appends `k` unless it is already present.
pub open spec fn add_new(d: Seq<Seq<char>>, k: Seq<char>) -> Seq<Seq<char>> {
    if d.contains(k) {
        d
    } else {
        d.push(k)
    }
}

/// The distinct collection names, in order of first appearance.
pub open spec fn collections_of(es: Seq<ParsedEntry>) -> Seq<Seq<char>>
    decreases es.len(),
{
    if es.len() == 0 {
        Seq::empty()
    } else {
        add_new(collections_of(es.drop_last()), collection_key(es.last()))
    }
}

/// The distinct title names within collection `c`, in order of first appearance.
pub open spec fn titles_of(es: Seq<ParsedEntry>, c: Seq<char>) -> Seq<Seq<char>>
    decreases es.len(),
{
    if es.len() == 0 {
        Seq::empty()
    } else if collection_key(es.last()) == c {
        add_new(titles_of(es.drop_last(), c), title_key(es.last()))
    } else {
        titles_of(es.drop_last(), c)
    }
}

/// The distinct tab names within title `t` of collection `c`, in order of first appearance.
pub open spec fn tabs_of(es: Seq<ParsedEntry>, c: Seq<char>, t: Seq<char>) -> Seq<Seq<char>>
    decreases es.len(),
{
    if es.len() == 0 {
        Seq::empty()
    } else if collection_key(es.last()) == c && title_key(es.last()) == t {
        add_new(tabs_of(es.drop_last(), c, t), tab_key(es.last()))
    } else {
        tabs_of(es.drop_last(), c, t)
    }
}

/// The records filed under collection `c`, title `t` and tab `b`, in input order.
pub open spec fn items_of(es: Seq<ParsedEntry>, c: Seq<char>, t: Seq<char>, b: Seq<char>) -> Seq<Record>
    decreases es.len(),
{
    if es.len() == 0 {
        Seq::empty()
    } else if collection_key(es.last()) == c && title_key(es.last()) == t && tab_key(es.last()) == b {
        items_of(es.drop_last(), c, t, b).push(es.last().record)
    } else {
        items_of(es.drop_last(), c, t, b)
    }
}

/// The candidate of the first entry for collection `c` and title `t`, if any.
pub open spec fn first_candidate(es: Seq<ParsedEntry>, c: Seq<char>, t: Seq<char>) -> Option<Option<u32>>
    decreases es.len(),
{
    if es.len() == 0 {
        None
    } else if collection_key(es[0]) == c && title_key(es[0]) == t {
        Some(es[0].episode_candidate)
    } else {
        first_candidate(es.drop_first(), c, t)
    }
}

/// The episode number resolved for collection `c` and title `t`: the first
/// entry's candidate wins.
pub open spec fn resolved(es: Seq<ParsedEntry>, c: Seq<char>, t: Seq<char>) -> Option<u32> {
    match first_candidate(es, c, t) {
        Some(n) => n,
        None => None,
    }
}

pub open spec fn names(v: Seq<String>) -> Seq<Seq<char>> {
    v.map_values(|s: String| s@)
}

/// Whether `s` is among the names of `v`.
fn contains_name(v: &Vec<String>, s: &String) -> (r: bool)
    ensures
        r == names(v@).contains(s@),
{
    let mut i: usize = 0;
    while i < v.len()
        invariant
            0 <= i <= v@.len(),
            forall|k: int| 0 <= k < i ==> v@[k]@ != s@,
        decreases v@.len() - i,
    {
        if str_eq(v[i].as_str(), s.as_str()) {
            assert(names(v@)[i as int] == s@);
            return true;
        }
        i = i + 1;
    }
    proof {
        if names(v@).contains(s@) {
            let k = choose|k: int| 0 <= k < names(v@).len() && names(v@)[k] == s@;
            assert(v@[k]@ == s@);
        }
    }
    false
}

/// Appends `s` to `v` unless a name equal to it is there already.
fn push_new(v: &mut Vec<String>, s: &String)
    ensures
        names(final(v)@) == add_new(names(old(v)@), s@),
{
    if !contains_name(v, s) {
        v.push(s.clone());
        assert(names(final(v)@) =~= names(old(v)@).push(s@));
    }
}

/// The distinct collection names of `es`, in order of first appearance.
pub fn collection_names(es: &Vec<ParsedEntry>) -> (r: Vec<String>)
    ensures
        names(r@) == collections_of(es@),
{
    let mut r: Vec<String> = Vec::new();
    let mut i: usize = 0;
    while i < es.len()
        invariant
            0 <= i <= es@.len(),
            names(r@) == collections_of(es@.subrange(0, i as int)),
        decreases es@.len() - i,
    {
        assert(es@.subrange(0, i + 1).drop_last() =~= es@.subrange(0, i as int));
        push_new(&mut r, &es[i].record.collection_title);
        i = i + 1;
    }
    assert(es@.subrange(0, es@.len() as int) =~= es@);
    r
}

/// The distinct title names within collection `c`, in order of first appearance.
pub fn title_names(es: &Vec<ParsedEntry>, c: &String) -> (r: Vec<String>)
    ensures
        names(r@) == titles_of(es@, c@),
{
    let mut r: Vec<String> = Vec::new();
    let mut i: usize = 0;
    while i < es.len()
        invariant
            0 <= i <= es@.len(),
            names(r@) == titles_of(es@.subrange(0, i as int), c@),
        decreases es@.len() - i,
    {
        assert(es@.subrange(0, i + 1).drop_last() =~= es@.subrange(0, i as int));
        if str_eq(es[i].record.collection_title.as_str(), c.as_str()) {
            push_new(&mut r, &es[i].record.title);
        }
        i = i + 1;
    }
    assert(es@.subrange(0, es@.len() as int) =~= es@);
    r
}

/// The distinct tab names within title `t` of collection `c`, in order of first appearance.
pub fn tab_names(es: &Vec<ParsedEntry>, c: &String, t: &String) -> (r: Vec<String>)
    ensures
        names(r@) == tabs_of(es@, c@, t@),
{
    let mut r: Vec<String> = Vec::new();
    let mut i: usize = 0;
    while i < es.len()
        invariant
            0 <= i <= es@.len(),
            names(r@) == tabs_of(es@.subrange(0, i as int), c@, t@),
        decreases es@.len() - i,
    {
        assert(es@.subrange(0, i + 1).drop_last() =~= es@.subrange(0, i as int));
        let e = &es[i];
        if str_eq(e.record.collection_title.as_str(), c.as_str()) && str_eq(
            e.record.title.as_str(),
            t.as_str(),
        ) {
            push_new(&mut r, &e.record.tab_name);
        }
        i = i + 1;
    }
    assert(es@.subrange(0, es@.len() as int) =~= es@);
    r
}

/// The records filed under collection `c`, title `t` and tab `b`, in input order.
pub fn tab_items(es: &Vec<ParsedEntry>, c: &String, t: &String, b: &String) -> (r: Vec<Record>)
    ensures
        r@ == items_of(es@, c@, t@, b@),
{
    let mut r: Vec<Record> = Vec::new();
    let mut i: usize = 0;
    while i < es.len()
        invariant
            0 <= i <= es@.len(),
            r@ == items_of(es@.subrange(0, i as int), c@, t@, b@),
        decreases es@.len() - i,
    {
        assert(es@.subrange(0, i + 1).drop_last() =~= es@.subrange(0, i as int));
        let e = &es[i];
        if str_eq(e.record.collection_title.as_str(), c.as_str()) && str_eq(
            e.record.title.as_str(),
            t.as_str(),
        ) && str_eq(e.record.tab_name.as_str(), b.as_str()) {
            r.push(e.record.duplicate());
        }
        i = i + 1;
    }
    assert(es@.subrange(0, es@.len() as int) =~= es@);
    r
}

/// The episode number of collection `c`, title `t`: the candidate of the
/// first entry filed under them.
pub fn resolve_episode_number(es: &Vec<ParsedEntry>, c: &String, t: &String) -> (r: Option<u32>)
    ensures
        r == resolved(es@, c@, t@),
{
    let n = es.len();
    let mut i: usize = 0;
    assert(es@.subrange(0, n as int) =~= es@);
    while i < n
        invariant
            n == es@.len(),
            0 <= i <= n,
            first_candidate(es@, c@, t@) == first_candidate(es@.subrange(i as int, n as int), c@, t@),
        decreases n - i,
    {
        let e = &es[i];
        if str_eq(e.record.collection_title.as_str(), c.as_str()) && str_eq(
            e.record.title.as_str(),
            t.as_str(),
        ) {
            return e.episode_candidate;
        }
        assert(es@.subrange(i as int, n as int).drop_first() =~= es@.subrange(i + 1, n as int));
        i = i + 1;
    }
    None
}

/// Byte-wise lexicographic order, as `String`'s `Ord` compares.
pub open spec fn lex_le(a: Seq<u8>, b: Seq<u8>) -> bool
    decreases a.len(),
{
    if a.len() == 0 {
        true
    } else if b.len() == 0 {
        false
    } else if a[0] < b[0] {
        true
    } else if a[0] > b[0] {
        false
    } else {
        lex_le(a.drop_first(), b.drop_first())
    }
}

proof fn lemma_lex_total(a: Seq<u8>, b: Seq<u8>)
    ensures
        lex_le(a, b) || lex_le(b, a),
    decreases a.len(),
{
    if a.len() > 0 && b.len() > 0 && a[0] == b[0] {
        lemma_lex_total(a.drop_first(), b.drop_first());
    }
}

/// The UTF-8 bytes of a name.
pub open spec fn name_bytes(s: String) -> Seq<u8> {
    encode_utf8(s@)
}

/// Whether name `a` sorts no later than name `b`.
pub fn name_le(a: &String, b: &String) -> (r: bool)
    ensures
        r == lex_le(name_bytes(*a), name_bytes(*b)),
{
    let x = a.as_str().as_bytes();
    let y = b.as_str().as_bytes();
    let mut i: usize = 0;
    assert(x@.subrange(0, x@.len() as int) =~= x@);
    assert(y@.subrange(0, y@.len() as int) =~= y@);
    while i < x.len() && i < y.len()
        invariant
            x@ == name_bytes(*a),
            y@ == name_bytes(*b),
            0 <= i <= x@.len(),
            i <= y@.len(),
            lex_le(x@, y@) == lex_le(x@.subrange(i as int, x@.len() as int), y@.subrange(i as int, y@.len() as int)),
        decreases x@.len() - i,
    {
        if x[i] < y[i] {
            return true;
        }
        if x[i] > y[i] {
            return false;
        }
        assert(x@.subrange(i as int, x@.len() as int).drop_first() =~= x@.subrange(i + 1, x@.len() as int));
        assert(y@.subrange(i as int, y@.len() as int).drop_first() =~= y@.subrange(i + 1, y@.len() as int));
        i = i + 1;
    }
    i == x.len()
}

/// The position of a tab's first record (zero for an empty tab).
pub open spec fn first_position(b: TabNode) -> u32 {
    if b.items@.len() > 0 {
        b.items@[0].position
    } else {
        0
    }
}

/// Tabs in non-decreasing order of their first record's position.
pub open spec fn tabs_sorted(s: Seq<TabNode>) -> bool {
    forall|k: int| 0 <= k < s.len() - 1 ==> first_position(#[trigger] s[k]) <= first_position(s[k + 1])
}

/// Title order: by episode number, titles without one last, those among
/// themselves by name.
pub open spec fn title_le(a: TitleNode, b: TitleNode) -> bool {
    match (a.episode_number, b.episode_number) {
        (Some(x), Some(y)) => x <= y,
        (Some(_), None) => true,
        (None, Some(_)) => false,
        (None, None) => lex_le(name_bytes(a.name), name_bytes(b.name)),
    }
}

/// Titles in non-decreasing title order.
pub open spec fn titles_sorted(s: Seq<TitleNode>) -> bool {
    forall|k: int| 0 <= k < s.len() - 1 ==> title_le(#[trigger] s[k], s[k + 1])
}

proof fn lemma_title_total(a: TitleNode, b: TitleNode)
    ensures
        title_le(a, b) || title_le(b, a),
{
    lemma_lex_total(name_bytes(a.name), name_bytes(b.name));
}

/// Moving element `j` one place down is a swap with its neighbour, and keeps the multiset.
proof fn lemma_move_down<T>(s: Seq<T>, j: int)
    requires
        0 < j < s.len(),
    ensures
        s.remove(j).insert(j - 1, s[j]) == s.update(j - 1, s[j]).update(j, s[j - 1]),
        s.remove(j).insert(j - 1, s[j]).to_multiset() == s.to_multiset(),
{
    broadcast use vstd::seq_lib::to_multiset_remove, vstd::seq_lib::to_multiset_insert,
        vstd::seq_lib::to_multiset_contains, vstd::multiset::group_multiset_axioms;

    assert(s.remove(j).insert(j - 1, s[j]) =~= s.update(j - 1, s[j]).update(j, s[j - 1]));
    assert(s.contains(s[j]));
    assert(s.to_multiset().remove(s[j]).insert(s[j]) =~= s.to_multiset());
}

fn tab_position(b: &TabNode) -> (r: u32)
    ensures
        r == first_position(*b),
{
    if b.items.len() > 0 {
        b.items[0].position
    } else {
        0
    }
}

fn title_le_exec(a: &TitleNode, b: &TitleNode) -> (r: bool)
    ensures
        r == title_le(*a, *b),
{
    match (a.episode_number, b.episode_number) {
        (Some(x), Some(y)) => x <= y,
        (Some(_), None) => true,
        (None, Some(_)) => false,
        (None, None) => name_le(&a.name, &b.name),
    }
}

/// Sorts tabs by the position of their first record.
pub fn sort_tabs(v: &mut Vec<TabNode>)
    ensures
        final(v)@.to_multiset() == old(v)@.to_multiset(),
        final(v)@.len() == old(v)@.len(),
        tabs_sorted(final(v)@),
{
    let n = v.len();
    let mut i: usize = 1;
    while i < n
        invariant
            n == v@.len(),
            1 <= i,
            n > 0 ==> i <= n,
            v@.to_multiset() == old(v)@.to_multiset(),
            forall|k: int| 0 <= k < i - 1 ==> first_position(#[trigger] v@[k]) <= first_position(v@[k + 1]),
        decreases n - i,
    {
        let mut j: usize = i;
        while j > 0 && tab_position(&v[j - 1]) > tab_position(&v[j])
            invariant
                n == v@.len(),
                0 <= j <= i < n,
                v@.to_multiset() == old(v)@.to_multiset(),
                forall|k: int| 0 <= k < i && k != j - 1 ==> first_position(#[trigger] v@[k]) <= first_position(v@[k + 1]),
                0 < j < i ==> first_position(v@[j - 1]) <= first_position(v@[j + 1]),
            decreases j,
        {
            let ghost s = v@;
            let x = v.remove(j);
            v.insert(j - 1, x);
            proof {
                lemma_move_down(s, j as int);
            }
            j = j - 1;
        }
        i = i + 1;
    }
}

/// Sorts titles by episode number, titles without one last and by name.
pub fn sort_titles(v: &mut Vec<TitleNode>)
    ensures
        final(v)@.to_multiset() == old(v)@.to_multiset(),
        final(v)@.len() == old(v)@.len(),
        titles_sorted(final(v)@),
{
    let n = v.len();
    let mut i: usize = 1;
    while i < n
        invariant
            n == v@.len(),
            1 <= i,
            n > 0 ==> i <= n,
            v@.to_multiset() == old(v)@.to_multiset(),
            forall|k: int| 0 <= k < i - 1 ==> title_le(#[trigger] v@[k], v@[k + 1]),
        decreases n - i,
    {
        let mut j: usize = i;
        while j > 0 && !title_le_exec(&v[j - 1], &v[j])
            invariant
                n == v@.len(),
                0 <= j <= i < n,
                v@.to_multiset() == old(v)@.to_multiset(),
                forall|k: int| 0 <= k < i && k != j - 1 ==> title_le(#[trigger] v@[k], v@[k + 1]),
                0 < j < i ==> title_le(v@[j - 1], v@[j + 1]),
            decreases j,
        {
            let ghost s = v@;
            proof {
                lemma_title_total(s[j - 1], s[j as int]);
            }
            let x = v.remove(j);
            v.insert(j - 1, x);
            proof {
                lemma_move_down(s, j as int);
            }
            j = j - 1;
        }
        i = i + 1;
    }
}

/// A tab as it must stand under collection `c`, title `t`: named after one of
/// the title's tabs, holding exactly that tab's records, in input order.
pub open spec fn tab_ok(es: Seq<ParsedEntry>, c: Seq<char>, t: Seq<char>, b: TabNode) -> bool {
    &&& tabs_of(es, c, t).contains(b.name@)
    &&& b.items@ == items_of(es, c, t, b.name@)
    &&& b.items@.len() > 0
}

/// A title node as it must stand under collection `c`: one of the
/// collection's titles, with its resolved episode number and one node for
/// each of its tabs, ordered by first position.
pub open spec fn title_ok(es: Seq<ParsedEntry>, c: Seq<char>, tn: TitleNode) -> bool {
    &&& titles_of(es, c).contains(tn.name@)
    &&& tn.episode_number == resolved(es, c, tn.name@)
    &&& tn.tabs@.len() == tabs_of(es, c, tn.name@).len()
    &&& forall|k: int| 0 <= k < tn.tabs@.len() ==> tab_ok(es, c, tn.name@, #[trigger] tn.tabs@[k])
    &&& forall|b: Seq<char>| #[trigger] tabs_of(es, c, tn.name@).contains(b) ==>
            exists|k: int| 0 <= k < tn.tabs@.len() && (#[trigger] tn.tabs@[k]).name@ == b
    &&& tabs_sorted(tn.tabs@)
}

/// A collection node as it must stand: one node for each of its titles,
/// in title order.
pub open spec fn collection_ok(es: Seq<ParsedEntry>, cn: CollectionNode) -> bool {
    &&& collections_of(es).contains(cn.name@)
    &&& cn.titles@.len() == titles_of(es, cn.name@).len()
    &&& forall|k: int| 0 <= k < cn.titles@.len() ==> title_ok(es, cn.name@, #[trigger] cn.titles@[k])
    &&& forall|t: Seq<char>| #[trigger] titles_of(es, cn.name@).contains(t) ==>
            exists|k: int| 0 <= k < cn.titles@.len() && (#[trigger] cn.titles@[k]).name@ == t
    &&& titles_sorted(cn.titles@)
}

proof fn lemma_add_new_contains(d: Seq<Seq<char>>, k: Seq<char>, b: Seq<char>)
    ensures
        add_new(d, k).contains(b) <==> (d.contains(b) || k == b),
{
    if !d.contains(k) {
        if d.push(k).contains(b) && k != b {
            let i = choose|i: int| 0 <= i < d.push(k).len() && d.push(k)[i] == b;
            assert(d[i] == b);
        }
        if d.contains(b) {
            let i = choose|i: int| 0 <= i < d.len() && d[i] == b;
            assert(d.push(k)[i] == b);
        }
        assert(d.push(k)[d.len() as int] == k);
    }
}

proof fn lemma_tab_has_items(es: Seq<ParsedEntry>, c: Seq<char>, t: Seq<char>, b: Seq<char>)
    requires
        tabs_of(es, c, t).contains(b),
    ensures
        items_of(es, c, t, b).len() > 0,
    decreases es.len(),
{
    if es.len() > 0 {
        let e = es.last();
        if collection_key(e) == c && title_key(e) == t {
            lemma_add_new_contains(tabs_of(es.drop_last(), c, t), tab_key(e), b);
            if tab_key(e) != b {
                lemma_tab_has_items(es.drop_last(), c, t, b);
            }
        } else {
            lemma_tab_has_items(es.drop_last(), c, t, b);
        }
    }
}

proof fn lemma_same_elements<T>(a: Seq<T>, b: Seq<T>)
    requires
        a.to_multiset() == b.to_multiset(),
    ensures
        forall|x: T| a.contains(x) <==> b.contains(x),
{
    broadcast use vstd::seq_lib::to_multiset_contains;

    assert forall|x: T| a.contains(x) <==> b.contains(x) by {
        assert(a.contains(x) <==> a.to_multiset().count(x) > 0);
        assert(b.contains(x) <==> b.to_multiset().count(x) > 0);
    }
}

/// The node of title `t` in collection `c`.
pub fn build_title(es: &Vec<ParsedEntry>, c: &String, t: &String) -> (r: TitleNode)
    requires
        titles_of(es@, c@).contains(t@),
    ensures
        r.name@ == t@,
        title_ok(es@, c@, r),
{
    let tab_list = tab_names(es, c, t);
    let ghost bs = tabs_of(es@, c@, t@);
    let mut tabs: Vec<TabNode> = Vec::new();
    let mut k: usize = 0;
    while k < tab_list.len()
        invariant
            names(tab_list@) == bs,
            bs == tabs_of(es@, c@, t@),
            0 <= k <= tab_list@.len(),
            tabs@.len() == k,
            forall|j: int| 0 <= j < k ==> (#[trigger] tabs@[j]).name@ == bs[j],
            forall|j: int| 0 <= j < k ==> tab_ok(es@, c@, t@, #[trigger] tabs@[j]),
        decreases tab_list@.len() - k,
    {
        let ghost b = names(tab_list@)[k as int];
        assert(bs.contains(b)) by {
            assert(bs[k as int] == b);
        }
        proof {
            lemma_tab_has_items(es@, c@, t@, b);
        }
        let items = tab_items(es, c, t, &tab_list[k]);
        tabs.push(TabNode { name: tab_list[k].clone(), items });
        k = k + 1;
    }
    let ghost unsorted = tabs@;
    assert forall|b: Seq<char>| #[trigger] bs.contains(b) implies exists|j: int|
        0 <= j < unsorted.len() && (#[trigger] unsorted[j]).name@ == b by {
        let j = choose|j: int| 0 <= j < bs.len() && bs[j] == b;
        assert(unsorted[j].name@ == b);
    }
    sort_tabs(&mut tabs);
    proof {
        lemma_same_elements(tabs@, unsorted);
        assert forall|j: int| 0 <= j < tabs@.len() implies tab_ok(es@, c@, t@, #[trigger] tabs@[j]) by {
            assert(tabs@.contains(tabs@[j]));
            let i = choose|i: int| 0 <= i < unsorted.len() && unsorted[i] == tabs@[j];
        }
        assert forall|b: Seq<char>| #[trigger] bs.contains(b) implies exists|j: int|
            0 <= j < tabs@.len() && (#[trigger] tabs@[j]).name@ == b by {
            let i = choose|i: int| 0 <= i < unsorted.len() && (#[trigger] unsorted[i]).name@ == b;
            assert(unsorted.contains(unsorted[i]));
            let j = choose|j: int| 0 <= j < tabs@.len() && tabs@[j] == unsorted[i];
            assert(tabs@[j].name@ == b);
        }
    }
    let episode_number = resolve_episode_number(es, c, t);
    TitleNode { name: t.clone(), episode_number, tabs }
}

/// The node of collection `c`.
pub fn build_collection(es: &Vec<ParsedEntry>, c: &String) -> (r: CollectionNode)
    requires
        collections_of(es@).contains(c@),
    ensures
        r.name@ == c@,
        collection_ok(es@, r),
{
    let title_list = title_names(es, c);
    let ghost ts = titles_of(es@, c@);
    let mut titles: Vec<TitleNode> = Vec::new();
    let mut k: usize = 0;
    while k < title_list.len()
        invariant
            names(title_list@) == ts,
            ts == titles_of(es@, c@),
            0 <= k <= title_list@.len(),
            titles@.len() == k,
            forall|j: int| 0 <= j < k ==> (#[trigger] titles@[j]).name@ == ts[j],
            forall|j: int| 0 <= j < k ==> title_ok(es@, c@, #[trigger] titles@[j]),
        decreases title_list@.len() - k,
    {
        assert(ts.contains(ts[k as int]));
        let node = build_title(es, c, &title_list[k]);
        titles.push(node);
        k = k + 1;
    }
    let ghost unsorted = titles@;
    assert forall|t: Seq<char>| #[trigger] ts.contains(t) implies exists|j: int|
        0 <= j < unsorted.len() && (#[trigger] unsorted[j]).name@ == t by {
        let j = choose|j: int| 0 <= j < ts.len() && ts[j] == t;
        assert(unsorted[j].name@ == t);
    }
    sort_titles(&mut titles);
    proof {
        lemma_same_elements(titles@, unsorted);
        assert forall|j: int| 0 <= j < titles@.len() implies title_ok(es@, c@, #[trigger] titles@[j]) by {
            assert(titles@.contains(titles@[j]));
            let i = choose|i: int| 0 <= i < unsorted.len() && unsorted[i] == titles@[j];
        }
        assert forall|t: Seq<char>| #[trigger] ts.contains(t) implies exists|j: int|
            0 <= j < titles@.len() && (#[trigger] titles@[j]).name@ == t by {
            let i = choose|i: int| 0 <= i < unsorted.len() && (#[trigger] unsorted[i]).name@ == t;
            assert(unsorted.contains(unsorted[i]));
            let j = choose|j: int| 0 <= j < titles@.len() && titles@[j] == unsorted[i];
            assert(titles@[j].name@ == t);
        }
    }
    CollectionNode { name: c.clone(), titles }
}

/// The tree of `es`: one collection node per distinct collection name, in
/// order of first appearance, each as [`collection_ok`] describes.
pub open spec fn tree_ok(es: Seq<ParsedEntry>, tree: Seq<CollectionNode>) -> bool {
    &&& tree.len() == collections_of(es).len()
    &&& forall|i: int| 0 <= i < tree.len() ==> (#[trigger] tree[i]).name@ == collections_of(es)[i]
    &&& forall|i: int| 0 <= i < tree.len() ==> collection_ok(es, #[trigger] tree[i])
}

/// Groups entries into the tree.
pub fn build_tree(es: &Vec<ParsedEntry>) -> (r: Vec<CollectionNode>)
    ensures
        tree_ok(es@, r@),
{
    let collection_list = collection_names(es);
    let ghost cs = collections_of(es@);
    let mut tree: Vec<CollectionNode> = Vec::new();
    let mut k: usize = 0;
    while k < collection_list.len()
        invariant
            names(collection_list@) == cs,
            cs == collections_of(es@),
            0 <= k <= collection_list@.len(),
            tree@.len() == k,
            forall|j: int| 0 <= j < k ==> (#[trigger] tree@[j]).name@ == cs[j],
            forall|j: int| 0 <= j < k ==> collection_ok(es@, #[trigger] tree@[j]),
        decreases collection_list@.len() - k,
    {
        assert(cs.contains(cs[k as int]));
        let node = build_collection(es, &collection_list[k]);
        tree.push(node);
        k = k + 1;
    }
    tree
}

/// The tree to write out, or `None` when no record was parsed and nothing is written.
pub fn output_tree(es: &Vec<ParsedEntry>) -> (r: Option<Vec<CollectionNode>>)
    ensures
        r is None <==> es@.len() == 0,
        r is Some ==> tree_ok(es@, r.unwrap()@),
{
    if es.len() == 0 {
        None
    } else {
        Some(build_tree(es))
    }
}

/// What grouping reads of an entry: its record's value and its candidate.
pub open spec fn entry_view(e: ParsedEntry) -> (RecordView, Option<u32>) {
    (e.record@, e.episode_candidate)
}

proof fn lemma_same_first_candidate(es1: Seq<ParsedEntry>, es2: Seq<ParsedEntry>, c: Seq<char>, t: Seq<char>)
    requires
        es1.map_values(|e: ParsedEntry| entry_view(e)) == es2.map_values(|e: ParsedEntry| entry_view(e)),
    ensures
        first_candidate(es1, c, t) == first_candidate(es2, c, t),
    decreases es1.len(),
{
    let v1 = es1.map_values(|e: ParsedEntry| entry_view(e));
    let v2 = es2.map_values(|e: ParsedEntry| entry_view(e));
    assert(v1.len() == es1.len() && v2.len() == es2.len());
    if es1.len() > 0 {
        assert(v1[0] == v2[0]);
        assert(es1.drop_first().map_values(|e: ParsedEntry| entry_view(e)) =~= v1.drop_first());
        assert(es2.drop_first().map_values(|e: ParsedEntry| entry_view(e)) =~= v2.drop_first());
        lemma_same_first_candidate(es1.drop_first(), es2.drop_first(), c, t);
    }
}

/// Grouping depends on the entries' values alone: two runs over the same
/// entries, in the same order, give the same collection, title and tab keys
/// and the same resolved episode numbers.
pub proof fn lemma_deterministic_grouping(
    es1: Seq<ParsedEntry>,
    es2: Seq<ParsedEntry>,
    c: Seq<char>,
    t: Seq<char>,
    b: Seq<char>,
)
    requires
        es1.map_values(|e: ParsedEntry| entry_view(e)) == es2.map_values(|e: ParsedEntry| entry_view(e)),
    ensures
        collections_of(es1) == collections_of(es2),
        titles_of(es1, c) == titles_of(es2, c),
        tabs_of(es1, c, t) == tabs_of(es2, c, t),
        resolved(es1, c, t) == resolved(es2, c, t),
        items_of(es1, c, t, b).map_values(|r: Record| r@) == items_of(es2, c, t, b).map_values(|r: Record| r@),
    decreases es1.len(),
{
    lemma_same_first_candidate(es1, es2, c, t);
    let v1 = es1.map_values(|e: ParsedEntry| entry_view(e));
    let v2 = es2.map_values(|e: ParsedEntry| entry_view(e));
    assert(v1.len() == es1.len() && v2.len() == es2.len());
    if es1.len() > 0 {
        assert(v1.last() == v2.last());
        assert(es1.drop_last().map_values(|e: ParsedEntry| entry_view(e)) =~= v1.drop_last());
        assert(es2.drop_last().map_values(|e: ParsedEntry| entry_view(e)) =~= v2.drop_last());
        lemma_deterministic_grouping(es1.drop_last(), es2.drop_last(), c, t, b);
        let i1 = items_of(es1.drop_last(), c, t, b);
        let i2 = items_of(es2.drop_last(), c, t, b);
        assert(i1.push(es1.last().record).map_values(|r: Record| r@) =~= i1.map_values(|r: Record| r@).push(es1.last().record@));
        assert(i2.push(es2.last().record).map_values(|r: Record| r@) =~= i2.map_values(|r: Record| r@).push(es2.last().record@));
    }
}

} // verus!
