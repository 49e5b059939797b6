use vstd::prelude::*;

use crate::table::KmerTable;
use crate::RunError;

verus! {

/// The count a table map holds for `w`, zero when `w` is absent.
pub open spec fn cnt_of(m: Map<Seq<u8>, usize>, w: Seq<u8>) -> int {
    if m.contains_key(w) {
        m[w] as int
    } else {
        0
    }
}

/// The sum, over a sequence of table maps, of the count each holds for `w`.
pub open spec fn total_count(ts: Seq<Map<Seq<u8>, usize>>, w: Seq<u8>) -> int
    decreases ts.len(),
{
    if ts.len() == 0 {
        0
    } else {
        cnt_of(ts[0], w) + total_count(ts.drop_first(), w)
    }
}

/// The maps of a sequence of tables.
pub open spec fn maps_of(ts: Seq<KmerTable>) -> Seq<Map<Seq<u8>, usize>> {
    ts.map_values(|t: KmerTable| t.as_map())
}

/// `m` is the canonical table of the partial table maps `ts`: it holds
/// exactly the keys present in at least one of them, each with the sum of its
/// counts across all of them.
pub open spec fn merged_spec(ts: Seq<Map<Seq<u8>, usize>>, m: Map<Seq<u8>, usize>) -> bool {
    &&& forall|w: Seq<u8>|
        #![trigger m.contains_key(w)]
        #![trigger total_count(ts, w)]
        m.contains_key(w) <==> total_count(ts, w) > 0
    &&& forall|w: Seq<u8>| #[trigger] m.contains_key(w) ==> m[w] == total_count(ts, w)
}

pub proof fn lemma_total_nonneg(ts: Seq<Map<Seq<u8>, usize>>, w: Seq<u8>)
    ensures
        total_count(ts, w) >= 0,
    decreases ts.len(),
{
    if ts.len() > 0 {
        lemma_total_nonneg(ts.drop_first(), w);
    }
}

pub proof fn lemma_total_singleton(m: Map<Seq<u8>, usize>, w: Seq<u8>)
    ensures
        total_count(seq![m], w) == cnt_of(m, w),
{
    assert(seq![m].len() == 1);
    assert(seq![m][0] == m);
    assert(seq![m].drop_first() =~= Seq::<Map<Seq<u8>, usize>>::empty());
    assert(total_count(Seq::<Map<Seq<u8>, usize>>::empty(), w) == 0);
}

pub proof fn lemma_total_concat(a: Seq<Map<Seq<u8>, usize>>, b: Seq<Map<Seq<u8>, usize>>, w: Seq<u8>)
    ensures
        total_count(a + b, w) == total_count(a, w) + total_count(b, w),
    decreases a.len(),
{
    if a.len() == 0 {
        assert(a + b =~= b);
    } else {
        assert((a + b).drop_first() =~= a.drop_first() + b);
        assert((a + b)[0] == a[0]);
        lemma_total_concat(a.drop_first(), b, w);
    }
}

pub proof fn lemma_total_push(ts: Seq<Map<Seq<u8>, usize>>, m: Map<Seq<u8>, usize>, w: Seq<u8>)
    ensures
        total_count(ts.push(m), w) == total_count(ts, w) + cnt_of(m, w),
{
    assert(ts.push(m) =~= ts + seq![m]);
    lemma_total_concat(ts, seq![m], w);
    lemma_total_singleton(m, w);
}

pub proof fn lemma_total_remove(ts: Seq<Map<Seq<u8>, usize>>, j: int, w: Seq<u8>)
    requires
        0 <= j < ts.len(),
    ensures
        total_count(ts, w) == cnt_of(ts[j], w) + total_count(ts.remove(j), w),
{
    let a = ts.take(j);
    let b = seq![ts[j]];
    let c = ts.skip(j + 1);
    assert(ts =~= (a + b) + c);
    lemma_total_concat(a + b, c, w);
    lemma_total_concat(a, b, w);
    lemma_total_singleton(ts[j], w);
    assert(ts.remove(j) =~= a + c);
    lemma_total_concat(a, c, w);
}

/// Law: the summed count of every k-mer depends only on the collection of
/// partial table maps, not on the order in which they are processed.
pub proof fn lemma_total_count_permutation(
    ts1: Seq<Map<Seq<u8>, usize>>,
    ts2: Seq<Map<Seq<u8>, usize>>,
    w: Seq<u8>,
)
    requires
        ts1.to_multiset() == ts2.to_multiset(),
    ensures
        total_count(ts1, w) == total_count(ts2, w),
    decreases ts1.len(),
{
    broadcast use vstd::seq_lib::group_to_multiset_ensures;

    if ts1.len() == 0 {
        assert(ts2.to_multiset().len() == 0);
        assert(ts2.len() == 0);
    } else {
        let x = ts1[0];
        assert(ts1.contains(x));
        assert(ts1.to_multiset().count(x) > 0);
        assert(ts2.to_multiset().count(x) > 0);
        assert(ts2.contains(x));
        let j = choose|j: int| 0 <= j < ts2.len() && ts2[j] == x;
        lemma_total_remove(ts2, j, w);
        assert(ts1.remove(0).to_multiset() =~= ts1.to_multiset().remove(x));
        assert(ts2.remove(j).to_multiset() =~= ts2.to_multiset().remove(x));
        assert(ts1.drop_first() =~= ts1.remove(0));
        lemma_total_count_permutation(ts1.drop_first(), ts2.remove(j), w);
        assert(total_count(ts1, w) == cnt_of(x, w) + total_count(ts1.drop_first(), w));
    }
}

/// Law: merging the same collection of partial tables, in whatever processing
/// order, yields the same canonical table.
pub proof fn lemma_merge_order_independent(
    ts1: Seq<Map<Seq<u8>, usize>>,
    ts2: Seq<Map<Seq<u8>, usize>>,
    m1: Map<Seq<u8>, usize>,
    m2: Map<Seq<u8>, usize>,
)
    requires
        ts1.to_multiset() == ts2.to_multiset(),
        merged_spec(ts1, m1),
        merged_spec(ts2, m2),
    ensures
        m1 == m2,
{
    assert forall|w: Seq<u8>| #[trigger] m1.contains_key(w) implies m2.contains_key(w) && m2[w]
        == m1[w] by {
        lemma_total_count_permutation(ts1, ts2, w);
    }
    assert forall|w: Seq<u8>| #[trigger] m2.contains_key(w) implies m1.contains_key(w) by {
        lemma_total_count_permutation(ts1, ts2, w);
    }
    assert(m1 =~= m2);
}

#[verifier::external_type_specification]
#[verifier::external_body]
#[verifier::reject_recursive_types(K)]
#[verifier::reject_recursive_types(V)]
#[verifier::reject_recursive_types(S)]
pub struct ExDashMap<K, V, S>(dashmap::DashMap<K, V, S>);

/// What the concurrent canonical table holds: its mapping from k-mer bytes to
/// count.
pub uninterp spec fn dash_contents(m: dashmap::DashMap<Vec<u8>, usize>) -> Map<Seq<u8>, usize>;

/// Relies on dashmap::DashMap::new: creates an empty map.
#[verifier::external_body]
fn dash_new() -> (m: dashmap::DashMap<Vec<u8>, usize>)
    ensures
        forall|w: Seq<u8>| !dash_contents(m).contains_key(w),
{
    dashmap::DashMap::new()
}

/// Relies on dashmap::DashMap::get: returns the value stored under the key,
/// if any.
#[verifier::external_body]
fn dash_get(m: &dashmap::DashMap<Vec<u8>, usize>, w: &Vec<u8>) -> (r: Option<usize>)
    ensures
        match r {
            Some(c) => dash_contents(*m).contains_key(w@) && dash_contents(*m)[w@] == c,
            None => !dash_contents(*m).contains_key(w@),
        },
{
    m.get(w).map(|v| *v)
}

/// Relies on dashmap::DashMap::insert: stores the value under the key,
/// replacing any value stored there before.
#[verifier::external_body]
fn dash_insert(m: &mut dashmap::DashMap<Vec<u8>, usize>, w: Vec<u8>, c: usize)
    ensures
        dash_contents(*final(m)) == dash_contents(*old(m)).insert(w@, c),
{
    m.insert(w, c);
}

/// Relies on dashmap::DashMap::iter: yields every entry of the map exactly
/// once.
#[verifier::external_body]
fn dash_entries(m: &dashmap::DashMap<Vec<u8>, usize>) -> (r: Vec<(Vec<u8>, usize)>)
    ensures
        forall|i: int, j: int| 0 <= i < j < r@.len() ==> r@[i].0@ != r@[j].0@,
        forall|i: int|
            0 <= i < r@.len() ==> dash_contents(*m).contains_key((#[trigger] r@[i]).0@)
                && dash_contents(*m)[r@[i].0@] == r@[i].1,
        forall|w: Seq<u8>|
            #[trigger] dash_contents(*m).contains_key(w) ==> exists|i: int|
                0 <= i < r@.len() && (#[trigger] r@[i]).0@ == w,
{
    m.iter().map(|e| (e.key().clone(), *e.value())).collect()
}

/// Select the seed for the merge: the partial table with the greatest
/// distinct-key count, ties broken by the lowest record index.
pub fn select_seed(tables: &Vec<KmerTable>) -> (s: usize)
    requires
        tables@.len() >= 1,
    ensures
        s < tables@.len(),
        forall|j: int|
            0 <= j < tables@.len() ==> (#[trigger] tables@[j]).entries_view().len() <= tables@[s as int].entries_view().len(),
        forall|j: int|
            0 <= j < s ==> (#[trigger] tables@[j]).entries_view().len() < tables@[s as int].entries_view().len(),
{
    let mut s: usize = 0;
    let mut best: usize = tables[0].len();
    let mut j: usize = 1;
    while j < tables.len()
        invariant
            1 <= j <= tables@.len(),
            s < j,
            best == tables@[s as int].entries_view().len(),
            forall|i: int|
                0 <= i < j ==> (#[trigger] tables@[i]).entries_view().len() <= tables@[s as int].entries_view().len(),
            forall|i: int|
                0 <= i < s ==> (#[trigger] tables@[i]).entries_view().len() < tables@[s as int].entries_view().len(),
        decreases tables@.len() - j,
    {
        let l = tables[j].len();
        if l > best {
            s = j;
            best = l;
        }
        j += 1;
    }
    s
}

/// The canonical map after absorbing the table map `tm` into `pre`: keys of
/// either side, counts summed.
pub open spec fn absorbed(
    pre: Map<Seq<u8>, usize>,
    tm: Map<Seq<u8>, usize>,
    post: Map<Seq<u8>, usize>,
) -> bool {
    &&& forall|w: Seq<u8>|
        #![trigger post.contains_key(w)]
        #![trigger pre.contains_key(w)]
        #![trigger tm.contains_key(w)]
        post.contains_key(w) <==> pre.contains_key(w) || tm.contains_key(w)
    &&& forall|w: Seq<u8>|
        #[trigger] post.contains_key(w) ==> post[w] == cnt_of(pre, w) + cnt_of(tm, w)
}

/// Fold one partial table into the canonical table: add each of its counts to
/// the count stored under the same key, or insert the pair where the key is
/// new. Fails exactly when a summed count would not fit the counter.
fn absorb_into(m: &mut dashmap::DashMap<Vec<u8>, usize>, t: &KmerTable) -> (r: Result<
    (),
    RunError,
>)
    requires
        t.wf(),
    ensures
        r is Ok ==> absorbed(dash_contents(*old(m)), t.as_map(), dash_contents(*final(m))),
        r is Ok ==> forall|w: Seq<u8>|
            cnt_of(dash_contents(*old(m)), w) + cnt_of(t.as_map(), w) <= usize::MAX,
        r is Err ==> exists|w: Seq<u8>|
            cnt_of(dash_contents(*old(m)), w) + cnt_of(t.as_map(), w) > usize::MAX,
{
    let mut i: usize = 0;
    while i < t.len()
        invariant
            t.wf(),
            i <= t.entries_view().len(),
            forall|j: int|
                0 <= j < i ==> dash_contents(*m).contains_key(
                    (#[trigger] t.entries_view()[j]).0,
                ) && dash_contents(*m)[t.entries_view()[j].0] == cnt_of(
                    dash_contents(*old(m)),
                    t.entries_view()[j].0,
                ) + t.entries_view()[j].1,
            forall|w: Seq<u8>|
                #![trigger dash_contents(*m).contains_key(w)]
                #![trigger dash_contents(*old(m)).contains_key(w)]
                (forall|j: int| 0 <= j < i ==> (#[trigger] t.entries_view()[j]).0 != w) ==> (
                (dash_contents(*m).contains_key(w) <==> dash_contents(*old(m)).contains_key(w))
                    && cnt_of(dash_contents(*m), w) == cnt_of(dash_contents(*old(m)), w)),
        decreases t.entries_view().len() - i,
    {
        let w = t.key_at(i).clone();
        let c = t.count_at(i);
        proof {
            assert forall|j: int| 0 <= j < i implies (#[trigger] t.entries_view()[j]).0 != w@ by {
                assert(t.entries_view()[i as int].0 == w@);
            }
        }
        let ghost pre = dash_contents(*m);
        match dash_get(m, &w) {
            None => {
                dash_insert(m, w, c);
            },
            Some(v) => {
                if c > usize::MAX - v {
                    proof {
                        t.lemma_as_map_at(i as int);
                        assert(cnt_of(dash_contents(*old(m)), w@) == v);
                        assert(cnt_of(t.as_map(), w@) == c);
                    }
                    return Err(RunError::CountOverflow);
                }
                dash_insert(m, w, v + c);
            },
        }
        proof {
            assert forall|j: int| 0 <= j < i + 1 implies dash_contents(*m).contains_key(
                (#[trigger] t.entries_view()[j]).0,
            ) && dash_contents(*m)[t.entries_view()[j].0] == cnt_of(
                dash_contents(*old(m)),
                t.entries_view()[j].0,
            ) + t.entries_view()[j].1 by {
                if j < i {
                    assert(t.entries_view()[j].0 != t.entries_view()[i as int].0);
                    assert(dash_contents(*m) == pre.insert(
                        t.entries_view()[i as int].0,
                        dash_contents(*m)[t.entries_view()[i as int].0],
                    ));
                }
            }
        }
        i += 1;
    }
    proof {
        let pre = dash_contents(*old(m));
        let post = dash_contents(*m);
        let tm = t.as_map();
        assert forall|w: Seq<u8>| #[trigger] post.contains_key(w) implies post[w] == cnt_of(pre, w)
            + cnt_of(tm, w) by {
            if t.has_key(w) {
                let j = t.index_of(w);
                t.lemma_as_map_at(j);
                assert(t.entries_view()[j].0 == w);
            } else {
                assert forall|j: int|
                    0 <= j < t.entries_view().len() implies (#[trigger] t.entries_view()[j]).0
                    != w by {
                    if t.entries_view()[j].0 == w {
                        assert(t.has_key(w));
                    }
                }
            }
        }
        assert forall|w: Seq<u8>| #[trigger] post.contains_key(w) <==> pre.contains_key(w)
            || tm.contains_key(w) by {
            if t.has_key(w) {
                let j = t.index_of(w);
                assert(t.entries_view()[j].0 == w);
                assert(post.contains_key(w));
                assert(tm.contains_key(w));
            } else {
                assert forall|j: int|
                    0 <= j < t.entries_view().len() implies (#[trigger] t.entries_view()[j]).0
                    != w by {
                    if t.entries_view()[j].0 == w {
                        assert(t.has_key(w));
                    }
                }
                assert(!tm.contains_key(w));
            }
        }
        assert forall|w: Seq<u8>| cnt_of(pre, w) + cnt_of(tm, w) <= usize::MAX by {
            if post.contains_key(w) {
                assert(post[w] == cnt_of(pre, w) + cnt_of(tm, w));
            } else {
                assert(!tm.contains_key(w));
            }
        }
    }
    Ok(())
}

/// The sequence of table maps already folded after step `j` of the merge: the
/// seed first, then every table before `j` other than the seed.
pub open spec fn done_shape(maps: Seq<Map<Seq<u8>, usize>>, s: int, j: int) -> Seq<
    Map<Seq<u8>, usize>,
> {
    seq![maps[s]] + if j <= s {
        maps.take(j)
    } else {
        maps.take(s) + maps.subrange(s + 1, j)
    }
}

proof fn lemma_done_final(maps: Seq<Map<Seq<u8>, usize>>, s: int, w: Seq<u8>)
    requires
        0 <= s < maps.len(),
    ensures
        total_count(done_shape(maps, s, maps.len() as int), w) == total_count(maps, w),
{
    let a = maps.take(s);
    let b = seq![maps[s]];
    let c = maps.subrange(s + 1, maps.len() as int);
    assert(maps =~= (a + b) + c);
    lemma_total_concat(a + b, c, w);
    lemma_total_concat(a, b, w);
    lemma_total_singleton(maps[s], w);
    assert(done_shape(maps, s, maps.len() as int) =~= (b + a) + c);
    lemma_total_concat(b + a, c, w);
    lemma_total_concat(b, a, w);
}

proof fn lemma_done_plus_rest(maps: Seq<Map<Seq<u8>, usize>>, s: int, j: int, w: Seq<u8>)
    requires
        0 <= s < maps.len(),
        0 <= j < maps.len(),
        j != s,
    ensures
        total_count(maps, w) >= total_count(done_shape(maps, s, j), w) + cnt_of(maps[j], w),
{
    let b = seq![maps[s]];
    if j < s {
        let a = maps.take(j);
        let c = maps.subrange(j + 1, maps.len() as int);
        assert(maps =~= (a + seq![maps[j]]) + c);
        lemma_total_concat(a + seq![maps[j]], c, w);
        lemma_total_concat(a, seq![maps[j]], w);
        lemma_total_singleton(maps[j], w);
        let c1 = maps.subrange(j + 1, s);
        let c2 = maps.subrange(s + 1, maps.len() as int);
        assert(c =~= (c1 + b) + c2);
        lemma_total_concat(c1 + b, c2, w);
        lemma_total_concat(c1, b, w);
        lemma_total_singleton(maps[s], w);
        lemma_total_nonneg(c1, w);
        lemma_total_nonneg(c2, w);
        assert(done_shape(maps, s, j) =~= b + a);
        lemma_total_concat(b, a, w);
    } else {
        let a = maps.take(j);
        let c = maps.subrange(j + 1, maps.len() as int);
        assert(maps =~= (a + seq![maps[j]]) + c);
        lemma_total_concat(a + seq![maps[j]], c, w);
        lemma_total_concat(a, seq![maps[j]], w);
        lemma_total_singleton(maps[j], w);
        lemma_total_nonneg(c, w);
        let a1 = maps.take(s);
        let a2 = maps.subrange(s + 1, j);
        assert(a =~= (a1 + b) + a2);
        lemma_total_concat(a1 + b, a2, w);
        lemma_total_concat(a1, b, w);
        lemma_total_singleton(maps[s], w);
        assert(done_shape(maps, s, j) =~= (b + a1) + a2);
        lemma_total_concat(b + a1, a2, w);
        lemma_total_concat(b, a1, w);
    }
}

/// Merge every partial table into one canonical table, seeded from the
/// largest partial table: for every k-mer, the canonical count is the exact
/// sum of its counts across all partial tables. Fails exactly when a summed
/// count would not fit the counter.
pub fn merge_tables(tables: &Vec<KmerTable>) -> (r: Result<KmerTable, RunError>)
    requires
        tables@.len() >= 1,
        forall|i: int| 0 <= i < tables@.len() ==> (#[trigger] tables@[i]).wf(),
    ensures
        r is Ok <==> forall|w: Seq<u8>| #[trigger] total_count(maps_of(tables@), w) <= usize::MAX,
        r matches Ok(t) ==> t.wf() && merged_spec(maps_of(tables@), t.as_map()),
        r matches Err(e) ==> e == RunError::CountOverflow,
{
    let ghost maps = maps_of(tables@);
    let s = select_seed(tables);
    let mut dm = dash_new();
    let seed = &tables[s];
    let ghost m_s = maps[s as int];
    proof {
        assert(tables@[s as int].wf());
        assert(m_s == tables@[s as int].as_map());
    }
    let mut i: usize = 0;
    while i < seed.len()
        invariant
            seed.wf(),
            *seed == tables@[s as int],
            s < tables@.len(),
            m_s == tables@[s as int].as_map(),
            i <= seed.entries_view().len(),
            forall|j: int|
                0 <= j < i ==> dash_contents(dm).contains_key(
                    (#[trigger] seed.entries_view()[j]).0,
                ) && dash_contents(dm)[seed.entries_view()[j].0] == seed.entries_view()[j].1,
            forall|w: Seq<u8>|
                #[trigger] dash_contents(dm).contains_key(w) ==> exists|j: int|
                    0 <= j < i && (#[trigger] seed.entries_view()[j]).0 == w,
        decreases seed.entries_view().len() - i,
    {
        let w = seed.key_at(i).clone();
        let c = seed.count_at(i);
        let ghost pre = dash_contents(dm);
        dash_insert(&mut dm, w, c);
        proof {
            assert forall|j: int| 0 <= j < i + 1 implies dash_contents(dm).contains_key(
                (#[trigger] seed.entries_view()[j]).0,
            ) && dash_contents(dm)[seed.entries_view()[j].0] == seed.entries_view()[j].1 by {
                if j < i {
                    assert(seed.entries_view()[j].0 != seed.entries_view()[i as int].0);
                }
            }
        }
        i += 1;
    }
    let ghost done0 = done_shape(maps, s as int, 0);
    proof {
        assert(done0 =~= seq![m_s]);
        assert forall|w: Seq<u8>|
            #![trigger dash_contents(dm).contains_key(w)]
            #![trigger total_count(done0, w)]
            (dash_contents(dm).contains_key(w) <==> total_count(done0, w) > 0) && (dash_contents(
            dm,
        ).contains_key(w) ==> dash_contents(dm)[w] == total_count(done0, w)) by {
            lemma_total_singleton(m_s, w);
            if seed.has_key(w) {
                let j = seed.index_of(w);
                seed.lemma_as_map_at(j);
                assert(seed.entries_view()[j].0 == w);
                assert(dash_contents(dm).contains_key(w));
                assert(dash_contents(dm)[w] == seed.entries_view()[j].1);
            } else {
                if dash_contents(dm).contains_key(w) {
                    let j = choose|j: int|
                        0 <= j < seed.entries_view().len() && (#[trigger] seed.entries_view()[j]).0
                            == w;
                    assert(seed.has_key(w));
                }
                assert(!m_s.contains_key(w));
            }
        }
        assert(merged_spec(done0, dash_contents(dm)));
    }
    let mut j: usize = 0;
    while j < tables.len()
        invariant
            tables@.len() >= 1,
            forall|i2: int| 0 <= i2 < tables@.len() ==> (#[trigger] tables@[i2]).wf(),
            s < tables@.len(),
            j <= tables@.len(),
            maps == maps_of(tables@),
            m_s == maps[s as int],
            merged_spec(done_shape(maps, s as int, j as int), dash_contents(dm)),
        decreases tables@.len() - j,
    {
        let ghost done_pre = done_shape(maps, s as int, j as int);
        let ghost pre_contents = dash_contents(dm);
        if j != s {
            let res = absorb_into(&mut dm, &tables[j]);
            proof {
                assert(maps[j as int] == tables@[j as int].as_map());
            }
            match res {
                Err(_) => {
                    proof {
                        let tm = tables@[j as int].as_map();
                        let wbad = choose|w: Seq<u8>|
                            cnt_of(pre_contents, w) + cnt_of(tm, w) > usize::MAX;
                        lemma_total_nonneg(done_pre, wbad);
                        assert(cnt_of(pre_contents, wbad) == total_count(done_pre, wbad));
                        lemma_done_plus_rest(maps, s as int, j as int, wbad);
                        assert(total_count(maps, wbad) > usize::MAX);
                    }
                    return Err(RunError::CountOverflow);
                },
                Ok(_) => {
                    proof {
                        let done_next = done_shape(maps, s as int, j as int + 1);
                        assert(done_next =~= done_pre.push(maps[j as int]));
                        assert(absorbed(pre_contents, maps[j as int], dash_contents(dm)));
                        assert forall|w: Seq<u8>|
                            #![trigger dash_contents(dm).contains_key(w)]
                            #![trigger total_count(done_next, w)]
                            (dash_contents(dm).contains_key(w) <==> total_count(done_next, w) > 0)
                                && (dash_contents(dm).contains_key(w) ==> dash_contents(dm)[w]
                                == total_count(done_next, w)) by {
                            lemma_total_push(done_pre, maps[j as int], w);
                            lemma_total_nonneg(done_pre, w);
                            assert(cnt_of(pre_contents, w) == total_count(done_pre, w));
                            if tables@[j as int].has_key(w) {
                                tables@[j as int].lemma_as_map_pos(w);
                            }
                        }
                    }
                },
            }
        } else {
            proof {
                assert(done_shape(maps, s as int, j as int + 1) =~= done_pre);
            }
        }
        j += 1;
    }
    proof {
        assert forall|w: Seq<u8>|
            #![trigger dash_contents(dm).contains_key(w)]
            #![trigger total_count(maps, w)]
            (dash_contents(dm).contains_key(w) <==> total_count(maps, w) > 0) && (dash_contents(
            dm,
        ).contains_key(w) ==> dash_contents(dm)[w] == total_count(maps, w)) by {
            lemma_done_final(maps, s as int, w);
        }
    }
    let es = dash_entries(&dm);
    proof {
        assert forall|i2: int| 0 <= i2 < es@.len() implies (#[trigger] es@[i2]).1 >= 1 by {
            assert(dash_contents(dm).contains_key(es@[i2].0@));
        }
    }
    let t = KmerTable::from_entries(es);
    proof {
        assert forall|w: Seq<u8>|
            #![trigger t.as_map().contains_key(w)]
            #![trigger total_count(maps, w)]
            (t.as_map().contains_key(w) <==> total_count(maps, w) > 0) && (t.as_map().contains_key(
            w,
        ) ==> t.as_map()[w] == total_count(maps, w)) by {
            if t.has_key(w) {
                let i2 = t.index_of(w);
                t.lemma_as_map_at(i2);
                assert(t.entries_view()[i2].0 == es@[i2].0@);
                assert(dash_contents(dm).contains_key(w));
            } else {
                if dash_contents(dm).contains_key(w) {
                    let i2 = choose|i2: int| 0 <= i2 < es@.len() && (#[trigger] es@[i2]).0@ == w;
                    assert(t.entries_view()[i2].0 == w);
                    assert(t.has_key(w));
                }
            }
        }
        assert forall|w: Seq<u8>| #[trigger] total_count(maps, w) <= usize::MAX by {
            if dash_contents(dm).contains_key(w) {
            } else {
                lemma_total_nonneg(maps, w);
            }
        }
    }
    Ok(t)
}

} // verus!
