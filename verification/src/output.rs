//! Output decisions: the effective format, pagination and field selection.

use vstd::prelude::*;

verus! {

/// The effective output format.
#[derive(Debug, Clone, Copy, PartialEq, Eq, Structural)]
pub enum Format {
    Json,
    Table,
}

/// Resolve the effective format: an explicit choice wins, else JSON when
/// stdout is not a terminal and a table when it is.
pub fn resolve_format(explicit: Option<Format>, stdout_is_tty: bool) -> (f: Format)
    ensures
        f == match explicit {
            Some(e) => e,
            None => if stdout_is_tty {
                Format::Table
            } else {
                Format::Json
            },
        },
{
    match explicit {
        Some(f) => f,
        None => {
            if stdout_is_tty {
                Format::Table
            } else {
                Format::Json
            }
        },
    }
}

/// The items from `offset` on, at most `limit` of them.
pub open spec fn page_of<T>(items: Seq<T>, offset: usize, limit: Option<usize>) -> Seq<T> {
    let rest = if offset <= items.len() {
        items.skip(offset as int)
    } else {
        Seq::empty()
    };
    match limit {
        Some(n) => if n < rest.len() {
            rest.take(n as int)
        } else {
            rest
        },
        None => rest,
    }
}

/// Law: a page is the window of the items that starts at `offset`: it holds
/// as many items as remain after `offset`, capped by `limit`, and its `i`-th
/// item is the item at `offset + i`. A limit at least as large as what remains
/// leaves the rest whole.
pub proof fn law_page_is_window<T>(items: Seq<T>, offset: usize, limit: Option<usize>)
    ensures
        page_of(items, offset, limit).len() == ({
            let rest: int = if offset <= items.len() {
                items.len() - offset
            } else {
                0
            };
            match limit {
                Some(n) => if n < rest {
                    n as int
                } else {
                    rest
                },
                None => rest,
            }
        }),
        forall|i: int|
            0 <= i < page_of(items, offset, limit).len() ==> #[trigger] page_of(items, offset, limit)[i]
                == items[offset + i],
        limit matches Some(n) && offset + n >= items.len() && offset <= items.len() ==> page_of(
            items,
            offset,
            limit,
        ) == items.skip(offset as int),
{
}

/// Apply offset/limit to a list, returning the page and the total before paging.
pub fn paginate<T>(items: Vec<T>, offset: usize, limit: Option<usize>) -> (r: (Vec<T>, usize))
    ensures
        r.0@ == page_of(items@, offset, limit),
        r.1 == items@.len(),
{
    let total = items.len();
    let mut items = items;
    let ghost all = items@;
    let start = if offset <= total {
        offset
    } else {
        total
    };
    let mut page = items.split_off(start);
    proof {
        if offset > total {
            assert(page@ =~= Seq::<T>::empty());
        }
    }
    match limit {
        Some(n) => {
            if n < page.len() {
                page.truncate(n);
            }
        },
        None => {},
    }
    (page, total)
}

/// The first position of `f` in `keys`, if it is there.
pub open spec fn first_position(keys: Seq<Seq<char>>, f: Seq<char>) -> Option<int>
    decreases keys.len(),
{
    if keys.len() == 0 {
        None
    } else if keys.last() == f && first_position(keys.drop_last(), f) is None {
        Some(keys.len() - 1)
    } else {
        first_position(keys.drop_last(), f)
    }
}

/// The positions of the requested fields among an object's keys, in the order
/// requested, skipping fields the object lacks; every position when no field
/// is requested.
pub open spec fn selected_positions(keys: Seq<Seq<char>>, fields: Seq<Seq<char>>) -> Seq<int>
    decreases fields.len(),
{
    if fields.len() == 0 {
        Seq::empty()
    } else {
        selected_positions(keys, fields.drop_last()) + match first_position(keys, fields.last()) {
            Some(i) => seq![i],
            None => Seq::empty(),
        }
    }
}

pub open spec fn as_ints(v: Seq<usize>) -> Seq<int> {
    v.map_values(|i: usize| i as int)
}

pub open spec fn texts(v: Seq<String>) -> Seq<Seq<char>> {
    v.map_values(|s: String| s@)
}

fn first_position_of(keys: &Vec<String>, f: &String) -> (r: Option<usize>)
    ensures
        match first_position(texts(keys@), f@) {
            Some(i) => r == Some(i as usize),
            None => r is None,
        },
        r matches Some(i) ==> i < keys@.len(),
{
    let ghost kv = texts(keys@);
    for i in 0..keys.len()
        invariant
            kv == texts(keys@),
            first_position(kv.take(i as int), f@) is None,
    {
        proof {
            assert(kv.take(i + 1).drop_last() =~= kv.take(i as int));
        }
        if keys[i] == *f {
            proof {
                assert(first_position(kv.take(i + 1), f@) == Some(i as int));
                lemma_first_position_prefix(kv, i as int + 1, f@);
            }
            return Some(i);
        }
    }
    assert(kv.take(keys@.len() as int) =~= kv);
    None
}

proof fn lemma_first_position_range(keys: Seq<Seq<char>>, f: Seq<char>)
    ensures
        first_position(keys, f) matches Some(i) ==> 0 <= i < keys.len() && keys[i] == f,
    decreases keys.len(),
{
    if keys.len() > 0 {
        lemma_first_position_range(keys.drop_last(), f);
    }
}

proof fn lemma_first_position_prefix(keys: Seq<Seq<char>>, k: int, f: Seq<char>)
    requires
        0 <= k <= keys.len(),
        first_position(keys.take(k), f) is Some,
    ensures
        first_position(keys, f) == first_position(keys.take(k), f),
    decreases keys.len() - k,
{
    if k < keys.len() {
        assert(keys.take(k + 1).drop_last() =~= keys.take(k));
        lemma_first_position_prefix(keys, k + 1, f);
    } else {
        assert(keys.take(k) =~= keys);
    }
}

/// Which keys of an object to keep: the positions of the requested fields,
/// in the order requested; all of them when no field is requested.
pub fn select_fields(keys: &Vec<String>, fields: &Vec<String>) -> (sel: Vec<usize>)
    ensures
        fields@.len() == 0 ==> sel@.len() == keys@.len() && forall|i: int|
            0 <= i < sel@.len() ==> sel@[i] == i,
        fields@.len() > 0 ==> as_ints(sel@) == selected_positions(
            texts(keys@),
            texts(fields@),
        ),
{
    let mut sel: Vec<usize> = Vec::new();
    if fields.len() == 0 {
        for i in 0..keys.len()
            invariant
                sel@.len() == i,
                forall|j: int| 0 <= j < i ==> sel@[j] == j,
        {
            sel.push(i);
        }
        return sel;
    }
    let ghost fv = texts(fields@);
    let nk = keys.len();
    for j in 0..fields.len()
        invariant
            nk == keys@.len(),
            fv == texts(fields@),
            as_ints(sel@) == selected_positions(texts(keys@), fv.take(j as int)),
    {
        let ghost before = sel@;
        let found = first_position_of(keys, &fields[j]);
        proof {
            lemma_first_position_range(texts(keys@), fields@[j as int]@);
        }
        match found {
            Some(i) => {
                sel.push(i);
                assert(as_ints(sel@) =~= as_ints(before).push(
                    i as int,
                ));
            },
            None => {},
        }
        proof {
            assert(fv.take(j + 1).drop_last() =~= fv.take(j as int));
            assert(fv.take(j + 1).last() == fields@[j as int]@);
            assert(selected_positions(texts(keys@), fv.take(j + 1)) == selected_positions(
                texts(keys@),
                fv.take(j as int),
            ) + match first_position(texts(keys@), fields@[j as int]@) {
                Some(i) => seq![i],
                None => Seq::<int>::empty(),
            });
            assert(as_ints(before) == selected_positions(texts(keys@), fv.take(j as int)));
            match first_position(texts(keys@), fields@[j as int]@) {
                Some(i0) => {
                    assert(found == Some(i0 as usize));
                    assert(as_ints(sel@) == as_ints(before).push(i0));
                    assert(as_ints(sel@) =~= selected_positions(texts(keys@), fv.take(j as int))
                        + seq![i0]);
                },
                None => {
                    assert(sel@ == before);
                    assert(as_ints(sel@) =~= selected_positions(texts(keys@), fv.take(j as int))
                        + Seq::<int>::empty());
                },
            }
        }
    }
    assert(fv.take(fields@.len() as int) =~= fv);
    sel
}

/// What `first_position` finds: the first position holding `f`, or nothing
/// when no position does.
proof fn lemma_first_position_spec(keys: Seq<Seq<char>>, f: Seq<char>)
    ensures
        first_position(keys, f) matches Some(i) ==> 0 <= i < keys.len() && keys[i] == f && forall|m: int|
            0 <= m < i ==> keys[m] != f,
        first_position(keys, f) is None ==> forall|m: int| 0 <= m < keys.len() ==> keys[m] != f,
    decreases keys.len(),
{
    if keys.len() > 0 {
        let r = keys.drop_last();
        lemma_first_position_spec(r, f);
        assert forall|m: int| 0 <= m < r.len() implies r[m] == keys[m] by {}
        if first_position(r, f) is None {
            assert forall|m: int| 0 <= m < keys.len() - 1 implies keys[m] != f by {
                assert(r[m] == keys[m]);
            }
        } else {
            let i = first_position(r, f)->0;
            assert forall|m: int| 0 <= m < i implies keys[m] != f by {
                assert(r[m] == keys[m]);
            }
            assert(keys[i] == r[i]);
        }
    }
}

/// Law: field selection keeps, in the order requested, the first key equal
/// to each requested field that the object has, and only such keys: every
/// selected position holds a requested field and no earlier position holds
/// the same key, every requested field the object has is selected, and there
/// is at most one position per requested field.
pub proof fn law_selected_fields(keys: Seq<Seq<char>>, fields: Seq<Seq<char>>)
    ensures
        selected_positions(keys, fields).len() <= fields.len(),
        forall|t: int|
            0 <= t < selected_positions(keys, fields).len() ==> {
                let i = #[trigger] selected_positions(keys, fields)[t];
                &&& 0 <= i < keys.len()
                &&& exists|j: int| 0 <= j < fields.len() && fields[j] == keys[i]
                &&& forall|m: int| 0 <= m < i ==> keys[m] != keys[i]
            },
        forall|j: int|
            0 <= j < fields.len() && #[trigger] keys.contains(fields[j]) ==> exists|t: int|
                0 <= t < selected_positions(keys, fields).len() && keys[selected_positions(
                    keys,
                    fields,
                )[t]] == fields[j],
    decreases fields.len(),
{
    if fields.len() > 0 {
        let r = fields.drop_last();
        let f = fields.last();
        law_selected_fields(keys, r);
        lemma_first_position_spec(keys, f);
        let sr = selected_positions(keys, r);
        let sel = selected_positions(keys, fields);
        let add = match first_position(keys, f) {
            Some(i) => seq![i],
            None => Seq::<int>::empty(),
        };
        assert(sel == sr + add);
        assert forall|t: int| 0 <= t < sel.len() implies {
            let i = #[trigger] sel[t];
            &&& 0 <= i < keys.len()
            &&& exists|j: int| 0 <= j < fields.len() && fields[j] == keys[i]
            &&& forall|m: int| 0 <= m < i ==> keys[m] != keys[i]
        } by {
            if t < sr.len() {
                assert(sel[t] == sr[t]);
                let i = sr[t];
                let j = choose|j: int| 0 <= j < r.len() && r[j] == keys[i];
                assert(fields[j] == r[j]);
            } else {
                assert(fields[fields.len() - 1] == f);
            }
        }
        assert forall|j: int| 0 <= j < fields.len() && #[trigger] keys.contains(fields[j]) implies exists|t: int|
            0 <= t < sel.len() && keys[sel[t]] == fields[j] by {
            if j < r.len() {
                assert(fields[j] == r[j]);
                assert(keys.contains(r[j]));
                let t = choose|t: int| 0 <= t < sr.len() && keys[sr[t]] == r[j];
                assert(sel[t] == sr[t]);
            } else {
                assert(fields[j] == f);
                let m = choose|m: int| 0 <= m < keys.len() && keys[m] == f;
                assert(first_position(keys, f) is Some);
                assert(sel[sr.len() as int] == first_position(keys, f)->0);
            }
        }
    }
}

} // verus!
