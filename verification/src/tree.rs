//! Walks over the string values of a JSON document.
//!
//! A string value sits under a path: the object keys from the root down to it
//! (array positions add no key).
use vstd::prelude::*;

use crate::json::Json;

verus! {

/// A string value of a document with the keys that lead to it.
pub type Leaf = (Seq<Seq<char>>, Seq<char>);

/// The document with every string value `s` at path `p` replaced by `f(p, s)`.
pub open spec fn map_strings(
    j: Json,
    path: Seq<Seq<char>>,
    f: spec_fn(Seq<Seq<char>>, Seq<char>) -> Seq<char>,
) -> Json
    decreases j,
{
    match j {
        Json::Str(s) => Json::Str(f(path, s)),
        Json::Array(xs) => Json::Array(
            Seq::new(
                xs.len(),
                |i: int|
                    if 0 <= i < xs.len() {
                        proof {
                            assert(decreases_to!(xs => xs[i]));
                        }
                        map_strings(xs[i], path, f)
                    } else {
                        Json::Null
                    },
            ),
        ),
        Json::Object(ms) => Json::Object(
            Seq::new(
                ms.len(),
                |i: int|
                    if 0 <= i < ms.len() {
                        proof {
                            assert(decreases_to!(ms => ms[i]));
                            assert(decreases_to!(ms[i] => ms[i].1));
                        }
                        (ms[i].0, map_strings(ms[i].1, path.push(ms[i].0), f))
                    } else {
                        (Seq::empty(), Json::Null)
                    },
            ),
        ),
        _ => j,
    }
}

/// The string values of a document with their paths, in document order
/// (members and elements in order, depth first).
pub open spec fn leaves(j: Json, path: Seq<Seq<char>>) -> Seq<Leaf>
    decreases j, 1nat,
{
    match j {
        Json::Str(s) => seq![(path, s)],
        Json::Array(xs) => item_leaves(xs, path).flatten_alt(),
        Json::Object(ms) => member_leaves(ms, path).flatten_alt(),
        _ => Seq::empty(),
    }
}

/// Leaves of the elements of an array, one block per element.
pub open spec fn item_leaves(xs: Seq<Json>, path: Seq<Seq<char>>) -> Seq<Seq<Leaf>>
    decreases xs, 0nat,
{
    Seq::new(
        xs.len(),
        |i: int|
            if 0 <= i < xs.len() {
                proof {
                    assert(decreases_to!(xs => xs[i]));
                }
                leaves(xs[i], path)
            } else {
                Seq::empty()
            },
    )
}

/// Leaves of the members of an object, one block per member.
pub open spec fn member_leaves(ms: Seq<(Seq<char>, Json)>, path: Seq<Seq<char>>) -> Seq<
    Seq<Leaf>,
>
    decreases ms, 0nat,
{
    Seq::new(
        ms.len(),
        |i: int|
            if 0 <= i < ms.len() {
                proof {
                    assert(decreases_to!(ms => ms[i]));
                    assert(decreases_to!(ms[i] => ms[i].1));
                }
                leaves(ms[i].1, path.push(ms[i].0))
            } else {
                Seq::empty()
            },
    )
}

pub proof fn lemma_map_strings_array(
    xs: Seq<Json>,
    path: Seq<Seq<char>>,
    f: spec_fn(Seq<Seq<char>>, Seq<char>) -> Seq<char>,
)
    ensures
        map_strings(Json::Array(xs), path, f) == Json::Array(
            Seq::new(xs.len(), |i: int| map_strings(xs[i], path, f)),
        ),
{
    match map_strings(Json::Array(xs), path, f) {
        Json::Array(ys) => {
            assert(ys =~= Seq::new(xs.len(), |i: int| map_strings(xs[i], path, f)));
        },
        _ => {},
    }
}

pub proof fn lemma_map_strings_object(
    ms: Seq<(Seq<char>, Json)>,
    path: Seq<Seq<char>>,
    f: spec_fn(Seq<Seq<char>>, Seq<char>) -> Seq<char>,
)
    ensures
        map_strings(Json::Object(ms), path, f) == Json::Object(
            Seq::new(ms.len(), |i: int| (ms[i].0, map_strings(ms[i].1, path.push(ms[i].0), f))),
        ),
{
    match map_strings(Json::Object(ms), path, f) {
        Json::Object(ys) => {
            assert(ys =~= Seq::new(
                ms.len(),
                |i: int| (ms[i].0, map_strings(ms[i].1, path.push(ms[i].0), f)),
            ));
        },
        _ => {},
    }
}

/// Each block's elements occur in the concatenation of the blocks.
pub proof fn lemma_flatten_contains<A>(ss: Seq<Seq<A>>, i: int, e: A)
    requires
        0 <= i < ss.len(),
        ss[i].contains(e),
    ensures
        ss.flatten_alt().contains(e),
    decreases ss.len(),
{
    let k = choose|k: int| 0 <= k < ss[i].len() && ss[i][k] == e;
    if i == ss.len() - 1 {
        let f = ss.drop_last().flatten_alt();
        assert(ss.flatten_alt() == f + ss.last());
        assert((f + ss.last())[f.len() + k] == e);
    } else {
        lemma_flatten_contains(ss.drop_last(), i, e);
        let f = ss.drop_last().flatten_alt();
        assert(ss.flatten_alt() == f + ss.last());
        let m = choose|m: int| 0 <= m < f.len() && f[m] == e;
        assert((f + ss.last())[m] == e);
    }
}

/// Concatenating one more block.
pub proof fn lemma_flatten_take(ss: Seq<Seq<Leaf>>, i: int)
    requires
        0 <= i < ss.len(),
    ensures
        ss.take(i + 1).flatten_alt() == ss.take(i).flatten_alt() + ss[i],
{
    assert(ss.take(i + 1).drop_last() =~= ss.take(i));
}

/// Mapping with `f` and then with `g` maps with their composition.
pub proof fn lemma_map_strings_compose(
    j: Json,
    path: Seq<Seq<char>>,
    f: spec_fn(Seq<Seq<char>>, Seq<char>) -> Seq<char>,
    g: spec_fn(Seq<Seq<char>>, Seq<char>) -> Seq<char>,
)
    ensures
        map_strings(map_strings(j, path, f), path, g) == map_strings(
            j,
            path,
            |p: Seq<Seq<char>>, s: Seq<char>| g(p, f(p, s)),
        ),
    decreases j,
{
    let h = |p: Seq<Seq<char>>, s: Seq<char>| g(p, f(p, s));
    match j {
        Json::Array(xs) => {
            lemma_map_strings_array(xs, path, f);
            let ys = Seq::new(xs.len(), |i: int| map_strings(xs[i], path, f));
            lemma_map_strings_array(ys, path, g);
            lemma_map_strings_array(xs, path, h);
            assert forall|i: int| 0 <= i < xs.len() implies map_strings(ys[i], path, g)
                == map_strings(xs[i], path, h) by {
                lemma_map_strings_compose(xs[i], path, f, g);
            }
            assert(Seq::new(ys.len(), |i: int| map_strings(ys[i], path, g)) =~= Seq::new(
                xs.len(),
                |i: int| map_strings(xs[i], path, h),
            ));
        },
        Json::Object(ms) => {
            lemma_map_strings_object(ms, path, f);
            let ns = Seq::new(
                ms.len(),
                |i: int| (ms[i].0, map_strings(ms[i].1, path.push(ms[i].0), f)),
            );
            lemma_map_strings_object(ns, path, g);
            lemma_map_strings_object(ms, path, h);
            assert forall|i: int| 0 <= i < ms.len() implies map_strings(
                ns[i].1,
                path.push(ns[i].0),
                g,
            ) == map_strings(ms[i].1, path.push(ms[i].0), h) by {
                lemma_map_strings_compose(ms[i].1, path.push(ms[i].0), f, g);
            }
            assert(Seq::new(
                ns.len(),
                |i: int| (ns[i].0, map_strings(ns[i].1, path.push(ns[i].0), g)),
            ) =~= Seq::new(
                ms.len(),
                |i: int| (ms[i].0, map_strings(ms[i].1, path.push(ms[i].0), h)),
            ));
        },
        _ => {},
    }
}

/// Two maps that agree on every leaf of a document map it alike.
pub proof fn lemma_map_strings_agree(
    j: Json,
    path: Seq<Seq<char>>,
    f: spec_fn(Seq<Seq<char>>, Seq<char>) -> Seq<char>,
    g: spec_fn(Seq<Seq<char>>, Seq<char>) -> Seq<char>,
)
    requires
        forall|e: Leaf| #[trigger] leaves(j, path).contains(e) ==> f(e.0, e.1) == g(e.0, e.1),
    ensures
        map_strings(j, path, f) == map_strings(j, path, g),
    decreases j,
{
    match j {
        Json::Str(s) => {
            assert(leaves(j, path)[0] == (path, s));
            assert(leaves(j, path).contains((path, s)));
        },
        Json::Array(xs) => {
            lemma_map_strings_array(xs, path, f);
            lemma_map_strings_array(xs, path, g);
            assert forall|i: int| 0 <= i < xs.len() implies map_strings(xs[i], path, f)
                == map_strings(xs[i], path, g) by {
                assert forall|e: Leaf| #[trigger] leaves(xs[i], path).contains(e) implies f(
                    e.0,
                    e.1,
                ) == g(e.0, e.1) by {
                    assert(item_leaves(xs, path)[i] == leaves(xs[i], path));
                    lemma_flatten_contains(item_leaves(xs, path), i, e);
                    assert(leaves(j, path).contains(e));
                }
                lemma_map_strings_agree(xs[i], path, f, g);
            }
            assert(Seq::new(xs.len(), |i: int| map_strings(xs[i], path, f)) =~= Seq::new(
                xs.len(),
                |i: int| map_strings(xs[i], path, g),
            ));
        },
        Json::Object(ms) => {
            lemma_map_strings_object(ms, path, f);
            lemma_map_strings_object(ms, path, g);
            assert forall|i: int| 0 <= i < ms.len() implies map_strings(
                ms[i].1,
                path.push(ms[i].0),
                f,
            ) == map_strings(ms[i].1, path.push(ms[i].0), g) by {
                assert forall|e: Leaf| #[trigger]
                    leaves(ms[i].1, path.push(ms[i].0)).contains(e) implies f(e.0, e.1) == g(
                    e.0,
                    e.1,
                ) by {
                    assert(member_leaves(ms, path)[i] == leaves(ms[i].1, path.push(ms[i].0)));
                    lemma_flatten_contains(member_leaves(ms, path), i, e);
                    assert(leaves(j, path).contains(e));
                }
                lemma_map_strings_agree(ms[i].1, path.push(ms[i].0), f, g);
            }
            assert(Seq::new(
                ms.len(),
                |i: int| (ms[i].0, map_strings(ms[i].1, path.push(ms[i].0), f)),
            ) =~= Seq::new(
                ms.len(),
                |i: int| (ms[i].0, map_strings(ms[i].1, path.push(ms[i].0), g)),
            ));
        },
        _ => {},
    }
}

/// A map that leaves every leaf of a document unchanged leaves the document
/// unchanged.
pub proof fn lemma_map_strings_identity(
    j: Json,
    path: Seq<Seq<char>>,
    f: spec_fn(Seq<Seq<char>>, Seq<char>) -> Seq<char>,
)
    requires
        forall|e: Leaf| #[trigger] leaves(j, path).contains(e) ==> f(e.0, e.1) == e.1,
    ensures
        map_strings(j, path, f) == j,
    decreases j,
{
    match j {
        Json::Str(s) => {
            assert(leaves(j, path)[0] == (path, s));
            assert(leaves(j, path).contains((path, s)));
        },
        Json::Array(xs) => {
            lemma_map_strings_array(xs, path, f);
            assert forall|i: int| 0 <= i < xs.len() implies map_strings(xs[i], path, f)
                == xs[i] by {
                assert forall|e: Leaf| #[trigger] leaves(xs[i], path).contains(e) implies f(
                    e.0,
                    e.1,
                ) == e.1 by {
                    assert(item_leaves(xs, path)[i] == leaves(xs[i], path));
                    lemma_flatten_contains(item_leaves(xs, path), i, e);
                    assert(leaves(j, path).contains(e));
                }
                lemma_map_strings_identity(xs[i], path, f);
            }
            assert(Seq::new(xs.len(), |i: int| map_strings(xs[i], path, f)) =~= xs);
        },
        Json::Object(ms) => {
            lemma_map_strings_object(ms, path, f);
            assert forall|i: int| 0 <= i < ms.len() implies map_strings(
                ms[i].1,
                path.push(ms[i].0),
                f,
            ) == ms[i].1 by {
                assert forall|e: Leaf| #[trigger]
                    leaves(ms[i].1, path.push(ms[i].0)).contains(e) implies f(e.0, e.1)
                    == e.1 by {
                    assert(member_leaves(ms, path)[i] == leaves(ms[i].1, path.push(ms[i].0)));
                    lemma_flatten_contains(member_leaves(ms, path), i, e);
                    assert(leaves(j, path).contains(e));
                }
                lemma_map_strings_identity(ms[i].1, path.push(ms[i].0), f);
            }
            assert(Seq::new(
                ms.len(),
                |i: int| (ms[i].0, map_strings(ms[i].1, path.push(ms[i].0), f)),
            ) =~= ms);
        },
        _ => {},
    }
}

/// Concatenating blocks after mapping each commutes with mapping the
/// concatenation.
pub proof fn lemma_flatten_map(ss: Seq<Seq<Leaf>>, h: spec_fn(Leaf) -> Leaf)
    ensures
        Seq::new(ss.len(), |i: int| ss[i].map_values(h)).flatten_alt() == ss.flatten_alt().map_values(h),
    decreases ss.len(),
{
    let t = Seq::new(ss.len(), |i: int| ss[i].map_values(h));
    if ss.len() == 0 {
        assert(t.flatten_alt() =~= ss.flatten_alt().map_values(h));
    } else {
        let init = ss.drop_last();
        lemma_flatten_map(init, h);
        assert(t.drop_last() =~= Seq::new(init.len(), |i: int| init[i].map_values(h)));
        let a = init.flatten_alt();
        let b = ss.last();
        assert(ss.flatten_alt() == a + b);
        assert(t.flatten_alt() == t.drop_last().flatten_alt() + t.last());
        assert((a + b).map_values(h) =~= a.map_values(h) + b.map_values(h));
    }
}

/// The string values of a mapped document are those of the document, each
/// mapped.
pub proof fn lemma_leaves_map(j: Json, path: Seq<Seq<char>>, f: spec_fn(Seq<Seq<char>>, Seq<char>) -> Seq<char>)
    ensures
        leaves(map_strings(j, path, f), path) == leaves(j, path).map_values(|e: Leaf| (e.0, f(e.0, e.1))),
    decreases j,
{
    let h = |e: Leaf| (e.0, f(e.0, e.1));
    match j {
        Json::Str(s) => {
            assert(leaves(map_strings(j, path, f), path) =~= leaves(j, path).map_values(h));
        },
        Json::Array(xs) => {
            lemma_map_strings_array(xs, path, f);
            let ys = Seq::new(xs.len(), |i: int| map_strings(xs[i], path, f));
            assert forall|i: int| 0 <= i < xs.len() implies #[trigger] item_leaves(ys, path)[i] == item_leaves(
                xs,
                path,
            )[i].map_values(h) by {
                lemma_leaves_map(xs[i], path, f);
                assert(item_leaves(ys, path)[i] == leaves(ys[i], path));
                assert(item_leaves(xs, path)[i] == leaves(xs[i], path));
            }
            assert(item_leaves(ys, path) =~= Seq::new(
                xs.len(),
                |i: int| item_leaves(xs, path)[i].map_values(h),
            ));
            lemma_flatten_map(item_leaves(xs, path), h);
        },
        Json::Object(ms) => {
            lemma_map_strings_object(ms, path, f);
            let ns = Seq::new(ms.len(), |i: int| (ms[i].0, map_strings(ms[i].1, path.push(ms[i].0), f)));
            assert forall|i: int| 0 <= i < ms.len() implies #[trigger] member_leaves(ns, path)[i]
                == member_leaves(ms, path)[i].map_values(h) by {
                lemma_leaves_map(ms[i].1, path.push(ms[i].0), f);
                assert(member_leaves(ns, path)[i] == leaves(ns[i].1, path.push(ns[i].0)));
                assert(member_leaves(ms, path)[i] == leaves(ms[i].1, path.push(ms[i].0)));
            }
            assert(member_leaves(ns, path) =~= Seq::new(
                ms.len(),
                |i: int| member_leaves(ms, path)[i].map_values(h),
            ));
            lemma_flatten_map(member_leaves(ms, path), h);
        },
        _ => {
            assert(leaves(j, path).map_values(h) =~= Seq::<Leaf>::empty());
        },
    }
}

} // verus!
