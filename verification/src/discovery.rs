//! The environments under the case root, the cases of one environment, and
//! the order in which the cases run.

use vstd::prelude::*;
use crate::config::Config;
use crate::path::{
    extension, extension_dot_of, file_name, name_start_of, names_file, strip_extension,
};
use crate::text::{
    chars_of, contains, contains_text, lemma_lex_asymmetric, lemma_lex_irreflexive,
    lemma_lex_le_antisymmetric, lemma_lex_le_transitive, lex_le, lex_less, lex_lt, lowercase,
    slice_of, to_lowercase,
};

verus! {

/// One entry of the case root directory.
#[derive(Debug, PartialEq, Eq)]
pub struct DirEntry {
    /// The entry's name.
    pub name: String,
    /// Whether the entry is a directory.
    pub is_dir: bool,
}

/// A `DirEntry` as mathematical values.
pub struct DirEntryView {
    pub name: Seq<char>,
    pub is_dir: bool,
}

impl View for DirEntry {
    type V = DirEntryView;

    open spec fn view(&self) -> DirEntryView {
        DirEntryView { name: self.name@, is_dir: self.is_dir }
    }
}

impl DeepView for DirEntry {
    type V = DirEntryView;

    open spec fn deep_view(&self) -> DirEntryView {
        self@
    }
}

/// The environment that an entry of the case root stands for: the name of a
/// directory. Other entries stand for none.
pub open spec fn environment_of(entry: DirEntryView) -> Option<Seq<char>> {
    if entry.is_dir {
        Some(entry.name)
    } else {
        None
    }
}

/// The environments among the entries of the case root, in the order of the
/// entries.
pub open spec fn environments(entries: Seq<DirEntryView>) -> Seq<Seq<char>> {
    entries.filter_map(|entry: DirEntryView| environment_of(entry))
}

/// The names of the directories among `entries`, in the order of `entries`.
pub fn collect_env(entries: &Vec<DirEntry>) -> (envs: Vec<String>)
    ensures
        envs.deep_view() == environments(entries.deep_view()),
{
    let ghost all = entries.deep_view();
    let mut envs: Vec<String> = Vec::new();
    let mut i: usize = 0;
    assert(all.take(0) =~= Seq::empty());
    while i < entries.len()
        invariant
            i <= entries.len(),
            all == entries.deep_view(),
            envs.deep_view() == environments(all.take(i as int)),
        decreases entries.len() - i,
    {
        let ghost before = envs.deep_view();
        proof {
            all.lemma_filter_map_take_succ(|entry: DirEntryView| environment_of(entry), i as int);
        }
        if entries[i].is_dir {
            envs.push(entries[i].name.clone());
            assert(envs.deep_view() =~= before + seq![all[i as int].name]);
        }
        i = i + 1;
    }
    assert(all.take(i as int) =~= all);
    envs
}

/// One entry that a walk through the directory of an environment found.
#[derive(Debug, PartialEq, Eq)]
pub struct WalkEntry {
    /// The path of the entry; `None` for an entry that could not be read or
    /// whose path is no text.
    pub path: Option<String>,
    /// Whether the entry is a file.
    pub is_file: bool,
}

/// A `WalkEntry` as mathematical values.
pub struct WalkEntryView {
    pub path: Option<Seq<char>>,
    pub is_file: bool,
}

impl View for WalkEntry {
    type V = WalkEntryView;

    open spec fn view(&self) -> WalkEntryView {
        WalkEntryView { path: self.path.deep_view(), is_file: self.is_file }
    }
}

impl DeepView for WalkEntry {
    type V = WalkEntryView;

    open spec fn deep_view(&self) -> WalkEntryView {
        self@
    }
}

/// The case that a found entry stands for. An entry that is a file, whose
/// path is known, has the extension `ext` and, with that extension removed,
/// a file name that contains `filter`, stands for the path without the
/// extension. Any other entry stands for none.
pub open spec fn case_of(entry: WalkEntryView, ext: Seq<char>, filter: Seq<char>) -> Option<
    Seq<char>,
> {
    match entry.path {
        Some(p) => if entry.is_file && extension(p) == Some(ext) && contains_text(
            case_name(strip_extension(p)),
            filter,
        ) {
            Some(strip_extension(p))
        } else {
            None
        },
        None => None,
    }
}

/// The name of a case: the file name of its path, empty where it has none.
pub open spec fn case_name(case: Seq<char>) -> Seq<char> {
    match file_name(case) {
        Some(name) => name,
        None => Seq::empty(),
    }
}

/// A case together with the key by which cases are ordered.
#[derive(Debug, PartialEq, Eq)]
pub struct KeyedCase {
    /// What the case is ordered by.
    pub key: String,
    /// The case: the path of its definition file without the extension.
    pub case: String,
}

/// A `KeyedCase` as mathematical values.
pub struct KeyedView {
    pub key: Seq<char>,
    pub case: Seq<char>,
}

impl View for KeyedCase {
    type V = KeyedView;

    open spec fn view(&self) -> KeyedView {
        KeyedView { key: self.key@, case: self.case@ }
    }
}

impl DeepView for KeyedCase {
    type V = KeyedView;

    open spec fn deep_view(&self) -> KeyedView {
        self@
    }
}

/// The case that a found entry stands for, with its key: the lower-case
/// form of the case's path.
pub open spec fn keyed_case_of(
    entry: WalkEntryView,
    ext: Seq<char>,
    filter: Seq<char>,
) -> Option<KeyedView> {
    match case_of(entry, ext, filter) {
        Some(case) => Some(KeyedView { key: lowercase(case), case }),
        None => None,
    }
}

/// The cases among the found entries, each with its key, in the order of the
/// entries.
pub open spec fn found_cases(entries: Seq<WalkEntryView>, ext: Seq<char>, filter: Seq<char>) -> Seq<
    KeyedView,
> {
    entries.filter_map(|entry: WalkEntryView| keyed_case_of(entry, ext, filter))
}

/// The cases of `items`, without their keys.
pub open spec fn cases_of(items: Seq<KeyedView>) -> Seq<Seq<char>> {
    items.map_values(|item: KeyedView| item.case)
}

/// The characters of `v` from index `from` up to, not including, `to`.
fn sub_chars(v: &Vec<char>, from: usize, to: usize) -> (r: Vec<char>)
    requires
        from <= to <= v.len(),
    ensures
        r@ == v@.subrange(from as int, to as int),
{
    let mut r: Vec<char> = Vec::new();
    let mut i: usize = from;
    while i < to
        invariant
            from <= i <= to <= v.len(),
            r@ == v@.subrange(from as int, i as int),
        decreases to - i,
    {
        r.push(v[i]);
        assert(r@ =~= v@.subrange(from as int, i + 1));
        i = i + 1;
    }
    r
}

/// Whether two character vectors hold the same text.
fn same_chars(a: &Vec<char>, b: &Vec<char>) -> (r: bool)
    ensures
        r == (a@ == b@),
{
    if a.len() != b.len() {
        return false;
    }
    let mut i: usize = 0;
    while i < a.len()
        invariant
            i <= a.len(),
            a.len() == b.len(),
            forall|j: int| 0 <= j < i ==> a@[j] == b@[j],
        decreases a.len() - i,
    {
        if a[i] != b[i] {
            return false;
        }
        i = i + 1;
    }
    assert(a@ =~= b@);
    true
}

/// The case that the entry at `path` stands for, with the case extension and
/// the name filter given as characters.
fn case_at(path: &str, ext: &Vec<char>, filter: &Vec<char>) -> (r: Option<String>)
    ensures
        r.deep_view() == case_of(
            WalkEntryView { path: Some(path@), is_file: true },
            ext@,
            filter@,
        ),
{
    let v = chars_of(path);
    match extension_dot_of(&v) {
        None => None,
        Some(d) => {
            let found_ext = sub_chars(&v, d + 1, v.len());
            assert(v@.subrange(d + 1, v.len() as int) =~= v@.skip(d + 1));
            if !same_chars(&found_ext, ext) {
                return None;
            }
            let stem = sub_chars(&v, 0, d);
            assert(stem@ =~= strip_extension(v@));
            let start = name_start_of(&stem);
            let name = if names_file(&stem, start) {
                sub_chars(&stem, start, stem.len())
            } else {
                Vec::new()
            };
            assert(name@ =~= case_name(stem@));
            if contains(&name, filter) {
                assert(path@.subrange(0, d as int) =~= stem@);
                Some(slice_of(path, 0, d))
            } else {
                None
            }
        },
    }
}

/// The case that a found entry stands for, with the case extension and the
/// name filter given as characters.
fn case_in(entry: &WalkEntry, ext: &Vec<char>, filter: &Vec<char>) -> (r: Option<String>)
    ensures
        r.deep_view() == case_of(entry@, ext@, filter@),
{
    if !entry.is_file {
        return None;
    }
    match &entry.path {
        Some(path) => case_at(path.as_str(), ext, filter),
        None => None,
    }
}

/// The case that a found entry stands for: see `case_of`.
pub fn case_identity(entry: &WalkEntry, ext: &str, filter: &str) -> (r: Option<String>)
    ensures
        r.deep_view() == case_of(entry@, ext@, filter@),
{
    let e = chars_of(ext);
    let f = chars_of(filter);
    case_in(entry, &e, &f)
}

/// What a case is ordered by.
pub open spec fn sort_key(item: KeyedView) -> Seq<char> {
    item.key
}

/// No case is followed by one whose key comes before its own.
pub open spec fn ascending(cases: Seq<KeyedView>) -> bool {
    forall|i: int, j: int|
        0 <= i < j < cases.len() ==> lex_le(sort_key(#[trigger] cases[i]), sort_key(#[trigger] cases[j]))
}

/// The test that a case has the key `key`.
pub open spec fn keyed(key: Seq<char>) -> spec_fn(KeyedView) -> bool {
    |item: KeyedView| sort_key(item) == key
}

/// The cases of `cases` that have the key `key`, in the order of `cases`.
pub open spec fn with_key(cases: Seq<KeyedView>, key: Seq<char>) -> Seq<KeyedView> {
    cases.filter(keyed(key))
}

/// `order` is the order in which the cases `found` run: it holds the same
/// cases, each as often as `found` does, ascending by key, and cases with the
/// same key in the order in which `found` has them.
pub open spec fn is_run_order(order: Seq<KeyedView>, found: Seq<KeyedView>) -> bool {
    &&& order.to_multiset() == found.to_multiset()
    &&& ascending(order)
    &&& forall|key: Seq<char>| #[trigger] with_key(order, key) == with_key(found, key)
}

/// A sequence of which no element passes the test has an empty filter.
proof fn lemma_filter_none(s: Seq<KeyedView>, pred: spec_fn(KeyedView) -> bool)
    requires
        forall|i: int| 0 <= i < s.len() ==> !pred(#[trigger] s[i]),
    ensures
        s.filter(pred) == Seq::<KeyedView>::empty(),
    decreases s.len(),
{
    reveal(Seq::filter);
    if s.len() > 0 {
        assert forall|i: int| 0 <= i < s.drop_last().len() implies !pred(
            #[trigger] s.drop_last()[i],
        ) by {
            assert(s.drop_last()[i] == s[i]);
        }
        lemma_filter_none(s.drop_last(), pred);
        assert(!pred(s[s.len() - 1]));
    } else {
        assert(s.filter(pred) =~= Seq::<KeyedView>::empty());
    }
}

/// Putting one more case in its place keeps a run order: after the cases
/// whose key does not come after its own, before those whose key does.
proof fn lemma_insert_in_order(
    order: Seq<KeyedView>,
    found: Seq<KeyedView>,
    case: KeyedView,
    at: int,
)
    requires
        is_run_order(order, found),
        0 <= at <= order.len(),
        forall|i: int| at <= i < order.len() ==> lex_lt(sort_key(case), sort_key(#[trigger] order[i])),
        at > 0 ==> lex_le(sort_key(order[at - 1]), sort_key(case)),
    ensures
        is_run_order(order.insert(at, case), found.push(case)),
{
    let next = order.insert(at, case);
    vstd::seq_lib::to_multiset_insert(order, at, case);
    vstd::seq_lib::to_multiset_build(found, case);
    assert forall|i: int, j: int| 0 <= i < j < next.len() implies lex_le(
        sort_key(#[trigger] next[i]),
        sort_key(#[trigger] next[j]),
    ) by {
        if j < at {
            assert(next[i] == order[i] && next[j] == order[j]);
        } else if j == at {
            assert(next[i] == order[i]);
            if i < at - 1 {
                lemma_lex_le_transitive(
                    sort_key(order[i]),
                    sort_key(order[at - 1]),
                    sort_key(case),
                );
            }
        } else if i == at {
            assert(next[j] == order[j - 1]);
            lemma_lex_asymmetric(sort_key(case), sort_key(order[j - 1]));
        } else if i < at {
            assert(next[i] == order[i] && next[j] == order[j - 1]);
        } else {
            assert(next[i] == order[i - 1] && next[j] == order[j - 1]);
        }
    }
    assert forall|key: Seq<char>| #[trigger] with_key(next, key) == with_key(
        found.push(case),
        key,
    ) by {
        let pred = keyed(key);
        let head = order.take(at);
        let tail = order.skip(at);
        assert(order =~= head + tail);
        assert(next =~= head + seq![case] + tail);
        Seq::filter_distributes_over_add(head, tail, pred);
        Seq::filter_distributes_over_add(head + seq![case], tail, pred);
        Seq::filter_distributes_over_add(head, seq![case], pred);
        found.lemma_filter_push(case, pred);
        assert(with_key(order, key) == with_key(found, key));
        assert(seq![case] =~= Seq::<KeyedView>::empty().push(case));
        Seq::<KeyedView>::empty().lemma_filter_push(case, pred);
        assert(Seq::<KeyedView>::empty().filter(pred) =~= Seq::<KeyedView>::empty()) by {
            reveal(Seq::filter);
        }
        if sort_key(case) == key {
            assert forall|i: int| 0 <= i < tail.len() implies !pred(#[trigger] tail[i]) by {
                assert(tail[i] == order[at + i]);
                lemma_lex_irreflexive(key);
            }
            lemma_filter_none(tail, pred);
            assert(with_key(next, key) =~= with_key(found, key).push(case));
        } else {
            assert(with_key(next, key) =~= with_key(found, key));
        }
    }
}

/// The last case of a non-empty sequence is the last of those that have its
/// key, and the others with a given key are those of the sequence before it.
proof fn lemma_with_key_last(cases: Seq<KeyedView>, key: Seq<char>)
    requires
        cases.len() > 0,
    ensures
        with_key(cases, key) == if sort_key(cases.last()) == key {
            with_key(cases.drop_last(), key).push(cases.last())
        } else {
            with_key(cases.drop_last(), key)
        },
{
    reveal(Seq::filter);
}

/// A case with the key `key` in `with_key(cases, key)` is a case of `cases`.
proof fn lemma_with_key_member(cases: Seq<KeyedView>, key: Seq<char>)
    requires
        with_key(cases, key).len() > 0,
    ensures
        exists|i: int| 0 <= i < cases.len() && sort_key(#[trigger] cases[i]) == key,
    decreases cases.len(),
{
    reveal(Seq::filter);
    if cases.len() > 0 {
        if sort_key(cases.last()) == key {
            assert(sort_key(cases[cases.len() - 1]) == key);
        } else {
            lemma_with_key_member(cases.drop_last(), key);
            let i = choose|i: int|
                0 <= i < cases.drop_last().len() && sort_key(#[trigger] cases.drop_last()[i])
                    == key;
            assert(cases[i] == cases.drop_last()[i]);
        }
    }
}

/// Two ascending sequences that hold, for every key, the same cases with that
/// key in the same order are the same sequence.
proof fn lemma_same_order(first: Seq<KeyedView>, second: Seq<KeyedView>)
    requires
        ascending(first),
        ascending(second),
        forall|key: Seq<char>| #[trigger] with_key(first, key) == with_key(second, key),
    ensures
        first == second,
    decreases first.len() + second.len(),
{
    if first.len() == 0 && second.len() == 0 {
        assert(first =~= second);
    } else if first.len() == 0 {
        let key = sort_key(second.last());
        lemma_with_key_last(second, key);
        assert(with_key(first, key) == with_key(second, key));
        assert(with_key(first, key) =~= Seq::<KeyedView>::empty()) by {
            reveal(Seq::filter);
        }
    } else if second.len() == 0 {
        let key = sort_key(first.last());
        lemma_with_key_last(first, key);
        assert(with_key(first, key) == with_key(second, key));
        assert(with_key(second, key) =~= Seq::<KeyedView>::empty()) by {
            reveal(Seq::filter);
        }
    } else {
        let k1 = sort_key(first.last());
        let k2 = sort_key(second.last());
        lemma_with_key_last(first, k1);
        lemma_with_key_last(second, k2);
        assert(with_key(first, k1) == with_key(second, k1));
        assert(with_key(first, k2) == with_key(second, k2));
        lemma_with_key_member(second, k1);
        lemma_with_key_member(first, k2);
        let i = choose|i: int| 0 <= i < second.len() && sort_key(#[trigger] second[i]) == k1;
        let j = choose|j: int| 0 <= j < first.len() && sort_key(#[trigger] first[j]) == k2;
        lemma_lex_irreflexive(k1);
        lemma_lex_irreflexive(k2);
        assert(lex_le(k1, k2)) by {
            if i < second.len() - 1 {
                assert(lex_le(sort_key(second[i]), sort_key(second[second.len() - 1])));
            }
        }
        assert(lex_le(k2, k1)) by {
            if j < first.len() - 1 {
                assert(lex_le(sort_key(first[j]), sort_key(first[first.len() - 1])));
            }
        }
        lemma_lex_le_antisymmetric(k1, k2);
        lemma_with_key_last(second, k1);
        let f = first.drop_last();
        let s = second.drop_last();
        assert(with_key(f, k1).push(first.last()) == with_key(s, k1).push(second.last()));
        assert(with_key(f, k1).push(first.last()).last() == first.last());
        assert(with_key(s, k1).push(second.last()).last() == second.last());
        assert(first.last() == second.last());
        assert forall|key: Seq<char>| #[trigger] with_key(f, key) == with_key(s, key) by {
            lemma_with_key_last(first, key);
            lemma_with_key_last(second, key);
            assert(with_key(first, key) == with_key(second, key));
            if key == k1 {
                assert(with_key(f, key) =~= with_key(f, key).push(first.last()).drop_last());
                assert(with_key(s, key) =~= with_key(s, key).push(second.last()).drop_last());
            }
        }
        assert(ascending(f)) by {
            assert forall|a: int, b: int| 0 <= a < b < f.len() implies lex_le(
                sort_key(#[trigger] f[a]),
                sort_key(#[trigger] f[b]),
            ) by {
                assert(f[a] == first[a] && f[b] == first[b]);
            }
        }
        assert(ascending(s)) by {
            assert forall|a: int, b: int| 0 <= a < b < s.len() implies lex_le(
                sort_key(#[trigger] s[a]),
                sort_key(#[trigger] s[b]),
            ) by {
                assert(s[a] == second[a] && s[b] == second[b]);
            }
        }
        lemma_same_order(f, s);
        assert(first =~= f.push(first.last()));
        assert(second =~= s.push(second.last()));
    }
}

/// The cases that were found have one run order only: `is_run_order` says
/// what the order is, not merely what holds of it.
pub proof fn law_run_order_is_unique(
    first: Seq<KeyedView>,
    second: Seq<KeyedView>,
    found: Seq<KeyedView>,
)
    requires
        is_run_order(first, found),
        is_run_order(second, found),
    ensures
        first == second,
{
    assert forall|key: Seq<char>| #[trigger] with_key(first, key) == with_key(second, key) by {
        assert(with_key(first, key) == with_key(found, key));
        assert(with_key(second, key) == with_key(found, key));
    }
    lemma_same_order(first, second);
}

/// The order in which the cases `found` run.
pub open spec fn run_order(found: Seq<KeyedView>) -> Seq<KeyedView> {
    choose|order: Seq<KeyedView>| is_run_order(order, found)
}

/// A sequence that is a run order of the cases `found` is `run_order(found)`.
pub proof fn lemma_run_order(order: Seq<KeyedView>, found: Seq<KeyedView>)
    requires
        is_run_order(order, found),
    ensures
        run_order(found) == order,
        is_run_order(run_order(found), found),
{
    law_run_order_is_unique(run_order(found), order, found);
}

/// Where a case with the key `key` goes into `order`: before the cases at
/// its end whose key comes after `key`.
pub open spec fn insert_position(order: Seq<KeyedView>, key: Seq<char>) -> int
    decreases order.len(),
{
    if order.len() == 0 {
        0
    } else if lex_lt(key, sort_key(order.last())) {
        insert_position(order.drop_last(), key)
    } else {
        order.len() as int
    }
}

/// `insert_position` gives a place after which every key comes after `key`
/// and before which the nearest key does not.
proof fn lemma_insert_position(order: Seq<KeyedView>, key: Seq<char>)
    ensures
        0 <= insert_position(order, key) <= order.len(),
        forall|i: int|
            insert_position(order, key) <= i < order.len() ==> lex_lt(
                key,
                sort_key(#[trigger] order[i]),
            ),
        insert_position(order, key) > 0 ==> lex_le(
            sort_key(order[insert_position(order, key) - 1]),
            key,
        ),
    decreases order.len(),
{
    if order.len() > 0 && lex_lt(key, sort_key(order.last())) {
        let rest = order.drop_last();
        lemma_insert_position(rest, key);
        let at = insert_position(rest, key);
        assert forall|i: int| at <= i < order.len() implies lex_lt(
            key,
            sort_key(#[trigger] order[i]),
        ) by {
            if i < rest.len() {
                assert(rest[i] == order[i]);
            }
        }
        if at > 0 {
            assert(rest[at - 1] == order[at - 1]);
        }
    }
}

/// Whatever cases are found, they have a run order, and it holds as many
/// cases as were found.
pub proof fn law_run_order_exists(found: Seq<KeyedView>)
    ensures
        is_run_order(run_order(found), found),
        run_order(found).len() == found.len(),
    decreases found.len(),
{
    if found.len() == 0 {
        lemma_run_order(found, found);
    } else {
        let rest = found.drop_last();
        let case = found.last();
        law_run_order_exists(rest);
        let order = run_order(rest);
        lemma_insert_position(order, sort_key(case));
        let at = insert_position(order, sort_key(case));
        lemma_insert_in_order(order, rest, case, at);
        assert(rest.push(case) =~= found);
        lemma_run_order(order.insert(at, case), found);
    }
    vstd::seq_lib::to_multiset_len(run_order(found));
    vstd::seq_lib::to_multiset_len(found);
}

/// No two different cases of `cases` have the same key.
pub open spec fn distinct_keys(cases: Seq<KeyedView>) -> bool {
    forall|i: int, j: int|
        0 <= i < cases.len() && 0 <= j < cases.len() && sort_key(#[trigger] cases[i]) == sort_key(
            #[trigger] cases[j],
        ) ==> cases[i] == cases[j]
}

/// Two ascending sequences that hold the same cases equally often, no two
/// different ones with the same key, are the same sequence.
proof fn lemma_ascending_is_unique(first: Seq<KeyedView>, second: Seq<KeyedView>)
    requires
        ascending(first),
        ascending(second),
        first.to_multiset() == second.to_multiset(),
        distinct_keys(first),
    ensures
        first == second,
    decreases first.len(),
{
    broadcast use vstd::multiset::group_multiset_axioms;

    vstd::seq_lib::to_multiset_len(first);
    vstd::seq_lib::to_multiset_len(second);
    if first.len() == 0 {
        assert(first =~= second);
    } else {
        let l1 = first.last();
        let l2 = second.last();
        let f = first.drop_last();
        let s = second.drop_last();
        assert(first =~= f.push(l1));
        assert(second =~= s.push(l2));
        vstd::seq_lib::to_multiset_build(f, l1);
        vstd::seq_lib::to_multiset_build(s, l2);
        vstd::seq_lib::to_multiset_contains(first, l2);
        vstd::seq_lib::to_multiset_contains(second, l1);
        assert(second.contains(l2)) by {
            assert(second[second.len() - 1] == l2);
        }
        assert(first.contains(l1)) by {
            assert(first[first.len() - 1] == l1);
        }
        vstd::seq_lib::to_multiset_contains(first, l1);
        vstd::seq_lib::to_multiset_contains(second, l2);
        let i = choose|i: int| 0 <= i < first.len() && first[i] == l2;
        let j = choose|j: int| 0 <= j < second.len() && second[j] == l1;
        lemma_lex_irreflexive(sort_key(l1));
        assert(lex_le(sort_key(l2), sort_key(l1))) by {
            if i < first.len() - 1 {
                assert(lex_le(sort_key(first[i]), sort_key(first[first.len() - 1])));
            }
        }
        assert(lex_le(sort_key(l1), sort_key(l2))) by {
            if j < second.len() - 1 {
                assert(lex_le(sort_key(second[j]), sort_key(second[second.len() - 1])));
            }
        }
        lemma_lex_le_antisymmetric(sort_key(l1), sort_key(l2));
        assert(l1 == l2) by {
            assert(sort_key(first[i]) == sort_key(first[first.len() - 1]));
        }
        assert(f.to_multiset() =~= first.to_multiset().remove(l1));
        assert(s.to_multiset() =~= second.to_multiset().remove(l2));
        assert(ascending(f)) by {
            assert forall|a: int, b: int| 0 <= a < b < f.len() implies lex_le(
                sort_key(#[trigger] f[a]),
                sort_key(#[trigger] f[b]),
            ) by {
                assert(f[a] == first[a] && f[b] == first[b]);
            }
        }
        assert(ascending(s)) by {
            assert forall|a: int, b: int| 0 <= a < b < s.len() implies lex_le(
                sort_key(#[trigger] s[a]),
                sort_key(#[trigger] s[b]),
            ) by {
                assert(s[a] == second[a] && s[b] == second[b]);
            }
        }
        assert(distinct_keys(f)) by {
            assert forall|a: int, b: int|
                0 <= a < f.len() && 0 <= b < f.len() && sort_key(#[trigger] f[a]) == sort_key(
                    #[trigger] f[b],
                ) implies f[a] == f[b] by {
                assert(f[a] == first[a] && f[b] == first[b]);
            }
        }
        lemma_ascending_is_unique(f, s);
    }
}

/// The cases found among two runs of entries, one after the other, are those
/// of the first followed by those of the second.
proof fn lemma_found_cases_add(
    a: Seq<WalkEntryView>,
    b: Seq<WalkEntryView>,
    ext: Seq<char>,
    filter: Seq<char>,
)
    ensures
        found_cases(a + b, ext, filter) == found_cases(a, ext, filter) + found_cases(
            b,
            ext,
            filter,
        ),
    decreases b.len(),
{
    reveal(Seq::filter_map);
    if b.len() == 0 {
        assert(a + b =~= a);
        assert(found_cases(a, ext, filter) + found_cases(b, ext, filter) =~= found_cases(
            a,
            ext,
            filter,
        ));
    } else {
        lemma_found_cases_add(a, b.drop_last(), ext, filter);
        assert((a + b).drop_last() =~= a + b.drop_last());
        assert((a + b).last() == b.last());
        assert(found_cases(a + b, ext, filter) =~= found_cases(a, ext, filter) + found_cases(
            b,
            ext,
            filter,
        ));
    }
}

/// Entries that are found in another order give the same cases, each as
/// often, in another order.
proof fn lemma_found_cases_permuted(
    a: Seq<WalkEntryView>,
    b: Seq<WalkEntryView>,
    ext: Seq<char>,
    filter: Seq<char>,
)
    requires
        a.to_multiset() == b.to_multiset(),
    ensures
        found_cases(a, ext, filter).to_multiset() == found_cases(b, ext, filter).to_multiset(),
    decreases a.len(),
{
    broadcast use vstd::multiset::group_multiset_axioms;

    vstd::seq_lib::to_multiset_len(a);
    vstd::seq_lib::to_multiset_len(b);
    if a.len() == 0 {
        assert(a =~= b);
    } else {
        let x = a.last();
        let rest = a.drop_last();
        assert(a =~= rest.push(x));
        vstd::seq_lib::to_multiset_build(rest, x);
        vstd::seq_lib::to_multiset_contains(b, x);
        let i = choose|i: int| 0 <= i < b.len() && b[i] == x;
        let others = b.remove(i);
        vstd::seq_lib::to_multiset_remove(b, i);
        assert(rest.to_multiset() =~= a.to_multiset().remove(x));
        lemma_found_cases_permuted(rest, others, ext, filter);
        let head = b.take(i);
        let tail = b.skip(i + 1);
        assert(b =~= head + seq![x] + tail);
        assert(others =~= head + tail);
        lemma_found_cases_add(head + seq![x], tail, ext, filter);
        lemma_found_cases_add(head, seq![x], ext, filter);
        lemma_found_cases_add(head, tail, ext, filter);
        lemma_found_cases_add(rest, seq![x], ext, filter);
        let fh = found_cases(head, ext, filter);
        let ft = found_cases(tail, ext, filter);
        let fx = found_cases(seq![x], ext, filter);
        vstd::seq_lib::lemma_multiset_commutative(fh + fx, ft);
        vstd::seq_lib::lemma_multiset_commutative(fh, fx);
        vstd::seq_lib::lemma_multiset_commutative(fh, ft);
        let fr = found_cases(rest, ext, filter);
        vstd::seq_lib::lemma_multiset_commutative(fr, fx);
        assert(a =~= rest + seq![x]);
        assert(found_cases(a, ext, filter) == fr + fx);
        assert(found_cases(b, ext, filter) == fh + fx + ft);
        assert(found_cases(others, ext, filter) == fh + ft);
        assert(fr.to_multiset() == fh.to_multiset().add(ft.to_multiset()));
        assert(found_cases(a, ext, filter).to_multiset() =~= found_cases(
            b,
            ext,
            filter,
        ).to_multiset());
    }
}

/// The order in which cases run does not depend on the order in which the
/// walk finds them, as long as no two different cases have the same key: two
/// walks that find the same entries give the same run order.
pub proof fn law_run_order_ignores_walk_order(
    a: Seq<WalkEntryView>,
    b: Seq<WalkEntryView>,
    ext: Seq<char>,
    filter: Seq<char>,
    order_a: Seq<KeyedView>,
    order_b: Seq<KeyedView>,
)
    requires
        a.to_multiset() == b.to_multiset(),
        distinct_keys(found_cases(a, ext, filter)),
        is_run_order(order_a, found_cases(a, ext, filter)),
        is_run_order(order_b, found_cases(b, ext, filter)),
    ensures
        order_a == order_b,
{
    let found = found_cases(a, ext, filter);
    lemma_found_cases_permuted(a, b, ext, filter);
    assert(distinct_keys(order_a)) by {
        assert forall|i: int, j: int|
            0 <= i < order_a.len() && 0 <= j < order_a.len() && sort_key(#[trigger] order_a[i])
                == sort_key(#[trigger] order_a[j]) implies order_a[i] == order_a[j] by {
            vstd::seq_lib::to_multiset_contains(order_a, order_a[i]);
            vstd::seq_lib::to_multiset_contains(order_a, order_a[j]);
            vstd::seq_lib::to_multiset_contains(found, order_a[i]);
            vstd::seq_lib::to_multiset_contains(found, order_a[j]);
            assert(order_a.contains(order_a[i]) && order_a.contains(order_a[j]));
            let p = choose|p: int| 0 <= p < found.len() && found[p] == order_a[i];
            let q = choose|q: int| 0 <= q < found.len() && found[q] == order_a[j];
            assert(sort_key(found[p]) == sort_key(found[q]));
        }
    }
    lemma_ascending_is_unique(order_a, order_b);
}

/// Every case that is found has the lower-case form of its path as its key.
proof fn lemma_found_cases_keys(
    entries: Seq<WalkEntryView>,
    ext: Seq<char>,
    filter: Seq<char>,
)
    ensures
        forall|i: int|
            0 <= i < found_cases(entries, ext, filter).len() ==> (#[trigger] found_cases(
                entries,
                ext,
                filter,
            )[i]).key == lowercase(found_cases(entries, ext, filter)[i].case),
    decreases entries.len(),
{
    reveal(Seq::filter_map);
    if entries.len() > 0 {
        lemma_found_cases_keys(entries.drop_last(), ext, filter);
        let rest = found_cases(entries.drop_last(), ext, filter);
        let all = found_cases(entries, ext, filter);
        assert forall|i: int| 0 <= i < all.len() implies (#[trigger] all[i]).key == lowercase(
            all[i].case,
        ) by {
            if i < rest.len() {
                assert(all[i] == rest[i]);
            } else {
                assert(keyed_case_of(entries.last(), ext, filter) == Some(all[i]));
            }
        }
    }
}

/// The cases of an environment run in ascending order of the lower-case
/// forms of their paths, and they are the cases that were found: as many,
/// and none else.
pub proof fn law_cases_run_in_lower_case_order(
    entries: Seq<WalkEntryView>,
    ext: Seq<char>,
    filter: Seq<char>,
)
    ensures
        ({
            let found = found_cases(entries, ext, filter);
            let cases = cases_of(run_order(found));
            &&& cases.len() == found.len()
            &&& forall|i: int, j: int|
                0 <= i < j < cases.len() ==> lex_le(
                    lowercase(#[trigger] cases[i]),
                    lowercase(#[trigger] cases[j]),
                )
            &&& forall|case: Seq<char>|
                cases.contains(case) <==> #[trigger] cases_of(found).contains(case)
        }),
{
    let found = found_cases(entries, ext, filter);
    let order = run_order(found);
    let cases = cases_of(order);
    law_run_order_exists(found);
    lemma_found_cases_keys(entries, ext, filter);
    assert forall|i: int| 0 <= i < order.len() implies (#[trigger] order[i]).key == lowercase(
        order[i].case,
    ) by {
        vstd::seq_lib::to_multiset_contains(order, order[i]);
        vstd::seq_lib::to_multiset_contains(found, order[i]);
        assert(order.contains(order[i]));
        let p = choose|p: int| 0 <= p < found.len() && found[p] == order[i];
        assert(found[p].key == lowercase(found[p].case));
    }
    assert forall|i: int, j: int| 0 <= i < j < cases.len() implies lex_le(
        lowercase(#[trigger] cases[i]),
        lowercase(#[trigger] cases[j]),
    ) by {
        assert(lex_le(sort_key(order[i]), sort_key(order[j])));
    }
    assert forall|case: Seq<char>| cases.contains(case) <==> #[trigger] cases_of(
        found,
    ).contains(case) by {
        if cases.contains(case) {
            let i = choose|i: int| 0 <= i < cases.len() && cases[i] == case;
            vstd::seq_lib::to_multiset_contains(order, order[i]);
            vstd::seq_lib::to_multiset_contains(found, order[i]);
            assert(order.contains(order[i]));
            let p = choose|p: int| 0 <= p < found.len() && found[p] == order[i];
            assert(cases_of(found)[p] == case);
        }
        if cases_of(found).contains(case) {
            let p = choose|p: int| 0 <= p < cases_of(found).len() && cases_of(found)[p] == case;
            vstd::seq_lib::to_multiset_contains(order, found[p]);
            vstd::seq_lib::to_multiset_contains(found, found[p]);
            assert(found.contains(found[p]));
            let i = choose|i: int| 0 <= i < order.len() && order[i] == found[p];
            assert(cases[i] == case);
        }
    }
}

/// Two entries that stand for the same case are the same entry: a case
/// names one file.
pub proof fn law_one_case_one_file(
    first: WalkEntryView,
    second: WalkEntryView,
    ext: Seq<char>,
    filter: Seq<char>,
)
    requires
        case_of(first, ext, filter) is Some,
        case_of(first, ext, filter) == case_of(second, ext, filter),
    ensures
        first == second,
{
    crate::path::law_add_extension_undoes_strip(first.path->0, ext);
    crate::path::law_add_extension_undoes_strip(second.path->0, ext);
}

/// A walk that finds no entry twice finds no case twice.
proof fn lemma_found_cases_distinct(entries: Seq<WalkEntryView>, ext: Seq<char>, filter: Seq<char>)
    requires
        entries.no_duplicates(),
    ensures
        found_cases(entries, ext, filter).no_duplicates(),
    decreases entries.len(),
{
    reveal(Seq::filter_map);
    if entries.len() > 0 {
        let rest = entries.drop_last();
        let last = entries.last();
        assert(rest.no_duplicates()) by {
            assert forall|i: int, j: int| 0 <= i < rest.len() && 0 <= j < rest.len() && i
                != j implies rest[i] != rest[j] by {
                assert(rest[i] == entries[i] && rest[j] == entries[j]);
            }
        }
        lemma_found_cases_distinct(rest, ext, filter);
        let f = |entry: WalkEntryView| keyed_case_of(entry, ext, filter);
        let before = found_cases(rest, ext, filter);
        match keyed_case_of(last, ext, filter) {
            Some(item) => {
                if before.contains(item) {
                    rest.lemma_filter_map_contains(f, item);
                    let other = choose|t: WalkEntryView| #[trigger]
                        rest.contains(t) && f(t) == Some(item);
                    law_one_case_one_file(other, last, ext, filter);
                    let i = choose|i: int| 0 <= i < rest.len() && rest[i] == other;
                    assert(entries[i] == entries[entries.len() - 1]);
                }
                let all = found_cases(entries, ext, filter);
                assert(all =~= before.push(item));
                assert forall|i: int, j: int| 0 <= i < all.len() && 0 <= j < all.len() && i
                    != j implies all[i] != all[j] by {
                    if i < before.len() && j < before.len() {
                        assert(all[i] == before[i] && all[j] == before[j]);
                    } else if i < before.len() {
                        assert(before.contains(before[i]));
                    } else {
                        assert(before.contains(before[j]));
                    }
                }
            },
            None => {},
        }
    }
}

/// A walk that finds no entry twice gives no case twice: each case runs once
/// in its environment.
pub proof fn law_no_case_runs_twice(entries: Seq<WalkEntryView>, ext: Seq<char>, filter: Seq<char>)
    requires
        entries.no_duplicates(),
    ensures
        cases_of(run_order(found_cases(entries, ext, filter))).no_duplicates(),
{
    broadcast use vstd::multiset::group_multiset_axioms;

    let found = found_cases(entries, ext, filter);
    let order = run_order(found);
    let cases = cases_of(order);
    law_run_order_exists(found);
    lemma_found_cases_distinct(entries, ext, filter);
    lemma_found_cases_keys(entries, ext, filter);
    found.lemma_multiset_has_no_duplicates();
    order.lemma_multiset_has_no_duplicates_conv();
    assert forall|i: int, j: int| 0 <= i < cases.len() && 0 <= j < cases.len() && i
        != j implies cases[i] != cases[j] by {
        vstd::seq_lib::to_multiset_contains(order, order[i]);
        vstd::seq_lib::to_multiset_contains(found, order[i]);
        vstd::seq_lib::to_multiset_contains(order, order[j]);
        vstd::seq_lib::to_multiset_contains(found, order[j]);
        assert(order.contains(order[i]) && order.contains(order[j]));
        let p = choose|p: int| 0 <= p < found.len() && found[p] == order[i];
        let q = choose|q: int| 0 <= q < found.len() && found[q] == order[j];
        assert(found[p].key == lowercase(found[p].case));
        assert(found[q].key == lowercase(found[q].case));
        assert(order[i] != order[j]);
    }
}

/// Puts cases in the order in which they run: ascending by key, cases with
/// the same key in the order in which `found` has them.
pub fn sort_by_key(found: Vec<KeyedCase>) -> (order: Vec<KeyedCase>)
    ensures
        is_run_order(order.deep_view(), found.deep_view()),
        order.deep_view() == run_order(found.deep_view()),
{
    let ghost all = found.deep_view();
    let mut order: Vec<KeyedCase> = Vec::new();
    let mut keys: Vec<Vec<char>> = Vec::new();
    let mut n: usize = 0;
    proof {
        assert(all.take(0) =~= Seq::empty());
        assert(order.deep_view() =~= Seq::empty());
    }
    while n < found.len()
        invariant
            n <= found.len(),
            all == found.deep_view(),
            keys.len() == order.len(),
            forall|i: int|
                0 <= i < order.len() ==> (#[trigger] keys@[i])@ == sort_key(order.deep_view()[i]),
            is_run_order(order.deep_view(), all.take(n as int)),
        decreases found.len() - n,
    {
        let item = KeyedCase { key: found[n].key.clone(), case: found[n].case.clone() };
        let key = chars_of(item.key.as_str());
        let ghost before = order.deep_view();
        let ghost before_keys = keys@;
        let mut at: usize = order.len();
        while at > 0 && lex_less(&key, &keys[at - 1])
            invariant
                at <= order.len(),
                keys.len() == order.len(),
                forall|i: int| at <= i < keys.len() ==> lex_lt(key@, (#[trigger] keys@[i])@),
            decreases at,
        {
            at = at - 1;
        }
        proof {
            assert(item@ == all[n as int]);
            assert forall|i: int| at <= i < before.len() implies lex_lt(
                sort_key(item@),
                sort_key(#[trigger] before[i]),
            ) by {
                assert(keys@[i]@ == sort_key(before[i]));
            }
            if at > 0 {
                assert(keys@[at - 1]@ == sort_key(before[at - 1]));
            }
            lemma_insert_in_order(before, all.take(n as int), item@, at as int);
            assert(all.take(n + 1) =~= all.take(n as int).push(item@));
        }
        order.insert(at, item);
        keys.insert(at, key);
        proof {
            assert(order.deep_view() =~= before.insert(at as int, item@));
            assert forall|i: int| 0 <= i < order.len() implies (#[trigger] keys@[i])@ == sort_key(
                order.deep_view()[i],
            ) by {
                if i < at {
                    assert(keys@[i] == before_keys[i]);
                    assert(before_keys[i]@ == sort_key(before[i]));
                } else if i > at {
                    assert(keys@[i] == before_keys[i - 1]);
                    assert(before_keys[i - 1]@ == sort_key(before[i - 1]));
                }
            }
        }
        n = n + 1;
    }
    assert(all.take(n as int) =~= all);
    proof {
        lemma_run_order(order.deep_view(), all);
    }
    order
}

/// The cases of one environment, in the order in which they run. `entries`
/// is what a walk through the environment's directory found, in the order in
/// which it found it. The cases among the entries are keyed by the lower-case
/// form of their paths and put in key order.
pub fn collect_case_paths(entries: &Vec<WalkEntry>, config: &Config) -> (cases: Vec<String>)
    ensures
        cases.deep_view() == cases_of(
            run_order(
                found_cases(entries.deep_view(), config@.test_case_extension, config@.test_filter),
            ),
        ),
{
    let ghost all = entries.deep_view();
    let ghost ext = config@.test_case_extension;
    let ghost filter = config@.test_filter;
    let e = chars_of(config.test_case_extension.as_str());
    let f = chars_of(config.test_filter.as_str());
    let mut found: Vec<KeyedCase> = Vec::new();
    let mut i: usize = 0;
    assert(all.take(0) =~= Seq::empty());
    while i < entries.len()
        invariant
            i <= entries.len(),
            all == entries.deep_view(),
            e@ == ext,
            f@ == filter,
            found.deep_view() == found_cases(all.take(i as int), ext, filter),
        decreases entries.len() - i,
    {
        let ghost before = found.deep_view();
        proof {
            all.lemma_filter_map_take_succ(
                |entry: WalkEntryView| keyed_case_of(entry, ext, filter),
                i as int,
            );
        }
        let case = case_in(&entries[i], &e, &f);
        assert(case.deep_view() == case_of(all[i as int], ext, filter));
        match case {
            Some(c) => {
                let item = KeyedCase { key: to_lowercase(c.as_str()), case: c };
                found.push(item);
                assert(found.deep_view() =~= before + seq![item@]);
            },
            None => {},
        }
        i = i + 1;
    }
    assert(all.take(i as int) =~= all);
    let order = sort_by_key(found);
    let mut cases: Vec<String> = Vec::new();
    let mut k: usize = 0;
    while k < order.len()
        invariant
            k <= order.len(),
            cases.deep_view() == cases_of(order.deep_view().take(k as int)),
        decreases order.len() - k,
    {
        let ghost before = cases.deep_view();
        cases.push(order[k].case.clone());
        proof {
            assert(cases.deep_view() =~= before.push(order.deep_view()[k as int].case));
            assert(cases_of(order.deep_view().take(k + 1)) =~= cases_of(
                order.deep_view().take(k as int),
            ).push(order.deep_view()[k as int].case));
        }
        k = k + 1;
    }
    assert(order.deep_view().take(k as int) =~= order.deep_view());
    cases
}

} // verus!
