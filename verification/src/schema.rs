//! Column layout of the feature table: feature columns in lexicographic
//! order, each followed later by its first-difference (`_DEV`) twin, framed by
//! the window id and time columns in front and the interpolation fractions
//! at the end.

use vstd::prelude::*;
use vstd::string::*;
use vstd::multiset::Multiset;

verus! {

broadcast use vstd::seq_lib::group_to_multiset_ensures;

/// Lexicographic order on character sequences (code-point order), the order
/// `str` comparison gives.
pub open spec fn lex_le(a: Seq<char>, b: Seq<char>) -> bool
    decreases a.len(),
{
    if a.len() == 0 {
        true
    } else if b.len() == 0 {
        false
    } else if a[0] != b[0] {
        (a[0] as int) < (b[0] as int)
    } else {
        lex_le(a.drop_first(), b.drop_first())
    }
}

/// `a` is a prefix of `b`.
pub open spec fn is_prefix(a: Seq<char>, b: Seq<char>) -> bool {
    a.len() <= b.len() && a == b.take(a.len() as int)
}

/// `a` and `b` agree before index `i` and differ there, `a` with the smaller
/// code point.
pub open spec fn smaller_at(a: Seq<char>, b: Seq<char>, i: int) -> bool {
    &&& 0 <= i < a.len()
    &&& i < b.len()
    &&& a.take(i) == b.take(i)
    &&& (a[i] as int) < (b[i] as int)
}

/// `lex_le` is code-point lexicographic order, the order `str` comparison
/// gives: `a` sorts before or equal to `b` exactly when `a` is a prefix of
/// `b`, or at the first index where they differ `a` has the smaller code
/// point.
pub proof fn lemma_lex_le_is_code_point_order(a: Seq<char>, b: Seq<char>)
    ensures
        lex_le(a, b) <==> (is_prefix(a, b) || exists|i: int| #[trigger] smaller_at(a, b, i)),
    decreases a.len(),
{
    if a.len() == 0 {
        assert(a =~= b.take(0));
    } else if b.len() == 0 {
        if exists|i: int| #[trigger] smaller_at(a, b, i) {
            let i = choose|i: int| #[trigger] smaller_at(a, b, i);
            assert(false);
        }
    } else if a[0] != b[0] {
        if is_prefix(a, b) {
            assert(a[0] == b.take(a.len() as int)[0]);
        }
        if (a[0] as int) < (b[0] as int) {
            assert(a.take(0) =~= b.take(0));
            assert(smaller_at(a, b, 0));
        }
        if exists|i: int| #[trigger] smaller_at(a, b, i) {
            let i = choose|i: int| #[trigger] smaller_at(a, b, i);
            if i > 0 {
                assert(a.take(i)[0] == b.take(i)[0]);
            }
        }
    } else {
        let a2 = a.drop_first();
        let b2 = b.drop_first();
        lemma_lex_le_is_code_point_order(a2, b2);
        if is_prefix(a, b) {
            assert forall|j: int| 0 <= j < a2.len() implies a2[j] == b2.take(a2.len() as int)[j] by {
                assert(a[j + 1] == b.take(a.len() as int)[j + 1]);
            }
            assert(a2 =~= b2.take(a2.len() as int));
        }
        if is_prefix(a2, b2) {
            assert forall|j: int| 0 <= j < a.len() implies a[j] == b.take(a.len() as int)[j] by {
                if j > 0 {
                    assert(a2[j - 1] == b2.take(a2.len() as int)[j - 1]);
                }
            }
            assert(a =~= b.take(a.len() as int));
        }
        if exists|i: int| #[trigger] smaller_at(a, b, i) {
            let i = choose|i: int| #[trigger] smaller_at(a, b, i);
            assert(i > 0);
            let k = i - 1;
            let ta = a2.take(k);
            let tb = b2.take(k);
            assert forall|j: int| 0 <= j < k implies ta[j] == tb[j] by {
                assert(a.take(i)[j + 1] == b.take(i)[j + 1]);
            }
            assert(ta =~= tb);
            assert(smaller_at(a2, b2, k));
        }
        if exists|i: int| #[trigger] smaller_at(a2, b2, i) {
            let i = choose|i: int| #[trigger] smaller_at(a2, b2, i);
            let k = i + 1;
            let ta = a.take(k);
            let tb = b.take(k);
            assert forall|j: int| 0 <= j < k implies ta[j] == tb[j] by {
                if j > 0 {
                    assert(a2.take(i)[j - 1] == b2.take(i)[j - 1]);
                }
            }
            assert(ta =~= tb);
            assert(smaller_at(a, b, k));
        }
    }
}

pub proof fn lemma_lex_total(a: Seq<char>, b: Seq<char>)
    ensures
        lex_le(a, b) || lex_le(b, a),
    decreases a.len(),
{
    if a.len() > 0 && b.len() > 0 {
        if a[0] == b[0] {
            lemma_lex_total(a.drop_first(), b.drop_first());
        } else {
            assert((a[0] as int) != (b[0] as int));
        }
    }
}

pub proof fn lemma_lex_transitive(a: Seq<char>, b: Seq<char>, c: Seq<char>)
    requires
        lex_le(a, b),
        lex_le(b, c),
    ensures
        lex_le(a, c),
    decreases a.len(),
{
    if a.len() > 0 && b.len() > 0 && c.len() > 0 && a[0] == b[0] && b[0] == c[0] {
        lemma_lex_transitive(a.drop_first(), b.drop_first(), c.drop_first());
    }
}

proof fn lemma_lex_skip(a: Seq<char>, b: Seq<char>, i: int)
    requires
        0 <= i < a.len(),
        i < b.len(),
        a[i] == b[i],
    ensures
        lex_le(a.skip(i), b.skip(i)) == lex_le(a.skip(i + 1), b.skip(i + 1)),
{
    assert(a.skip(i).drop_first() =~= a.skip(i + 1));
    assert(b.skip(i).drop_first() =~= b.skip(i + 1));
}

pub proof fn lemma_lex_antisymmetric(a: Seq<char>, b: Seq<char>)
    requires
        lex_le(a, b),
        lex_le(b, a),
    ensures
        a == b,
    decreases a.len(),
{
    if a.len() > 0 && b.len() > 0 && a[0] == b[0] {
        lemma_lex_antisymmetric(a.drop_first(), b.drop_first());
        assert(a =~= seq![a[0]] + a.drop_first());
        assert(b =~= seq![b[0]] + b.drop_first());
    } else if a.len() == 0 && b.len() == 0 {
        assert(a =~= b);
    }
}

/// Whether `a` sorts before or equal to `b`.
pub fn str_lex_le(a: &str, b: &str) -> (r: bool)
    ensures
        r == lex_le(a@, b@),
        r <==> (is_prefix(a@, b@) || exists|i: int| #[trigger] smaller_at(a@, b@, i)),
{
    proof {
        lemma_lex_le_is_code_point_order(a@, b@);
    }
    let la = a.unicode_len();
    let lb = b.unicode_len();
    let mut i: usize = 0;
    assert(a@.skip(0) =~= a@);
    assert(b@.skip(0) =~= b@);
    loop
        invariant
            la == a@.len(),
            lb == b@.len(),
            i <= la,
            i <= lb,
            lex_le(a@, b@) == lex_le(a@.skip(i as int), b@.skip(i as int)),
            lex_le(a@, b@) <==> (is_prefix(a@, b@) || exists|k: int| #[trigger] smaller_at(a@, b@, k)),
        decreases la - i,
    {
        if i == la {
            return true;
        }
        if i == lb {
            return false;
        }
        let ca = a.get_char(i);
        let cb = b.get_char(i);
        if ca != cb {
            return (ca as u32) < (cb as u32);
        }
        proof {
            lemma_lex_skip(a@, b@, i as int);
        }
        i = i + 1;
    }
}

/// The views of `v` are in lexicographic order.
pub open spec fn lex_sorted(v: Seq<String>) -> bool {
    forall|i: int, j: int| 0 <= i < j < v.len() ==> lex_le(#[trigger] v[i]@, #[trigger] v[j]@)
}

/// The feature names in lexicographic order: the same names, each as often
/// as it was given, sorted.
pub fn sorted_feature_names(names: Vec<String>) -> (sorted: Vec<String>)
    ensures
        sorted@.to_multiset() == names@.to_multiset(),
        views(sorted@).to_multiset() == views(names@).to_multiset(),
        lex_sorted(sorted@),
{
    let ghost original = names@;
    let mut rest = names;
    let mut sorted: Vec<String> = Vec::new();
    assert(sorted@.to_multiset() =~= Multiset::empty());
    assert(views(sorted@) =~= Seq::<Seq<char>>::empty());
    assert(views(sorted@).to_multiset() =~= Multiset::empty());
    loop
        invariant
            sorted@.to_multiset().add(rest@.to_multiset()) == original.to_multiset(),
            views(sorted@).to_multiset().add(views(rest@).to_multiset()) == views(original).to_multiset(),
            lex_sorted(sorted@),
        ensures
            sorted@.to_multiset() == original.to_multiset(),
            views(sorted@).to_multiset() == views(original).to_multiset(),
            lex_sorted(sorted@),
        decreases rest@.len(),
    {
        let ghost before_rest = rest@;
        match rest.pop() {
            None => {
                proof {
                    assert(rest@ =~= Seq::<String>::empty());
                    assert(rest@.to_multiset().len() == 0);
                    vstd::multiset::lemma_multiset_empty_len(rest@.to_multiset());
                    assert(rest@.to_multiset() =~= Multiset::empty());
                    assert(views(rest@) =~= Seq::<Seq<char>>::empty());
                    assert(views(rest@).to_multiset().len() == 0);
                    vstd::multiset::lemma_multiset_empty_len(views(rest@).to_multiset());
                    assert(views(sorted@).to_multiset().add(Multiset::empty()) =~= views(sorted@).to_multiset());
                }
                assert(sorted@.to_multiset().add(Multiset::empty()) =~= sorted@.to_multiset());
                break;
            },
            Some(x) => {
                assert(before_rest =~= rest@.push(x));
                assert(rest@.push(x).to_multiset() =~= rest@.to_multiset().insert(x));
                assert(before_rest.to_multiset() =~= rest@.to_multiset().insert(x));
                assert(views(before_rest) =~= views(rest@).push(x@));
                assert(views(rest@).push(x@).to_multiset() =~= views(rest@).to_multiset().insert(x@));
                // First position whose name does not sort before x.
                let mut p: usize = 0;
                while p < sorted.len() && !str_lex_le(x.as_str(), sorted[p].as_str())
                    invariant
                        p <= sorted@.len(),
                        forall|k: int| 0 <= k < p ==> !lex_le(x@, #[trigger] sorted@[k]@),
                    decreases sorted@.len() - p,
                {
                    p = p + 1;
                }
                let ghost s_old = sorted@;
                proof {
                    assert(s_old.insert(p as int, x).to_multiset() == s_old.to_multiset().insert(x));
                }
                sorted.insert(p, x);
                proof {
                    s_old.insert_ensures(p as int, x);
                    assert forall|i: int, j: int| 0 <= i < j < sorted@.len() implies lex_le(
                        #[trigger] sorted@[i]@,
                        #[trigger] sorted@[j]@,
                    ) by {
                        let pp = p as int;
                        if i < pp && j < pp {
                            assert(sorted@[i] == s_old[i] && sorted@[j] == s_old[j]);
                        } else if i < pp && j == pp {
                            assert(sorted@[i] == s_old[i]);
                            lemma_lex_total(x@, s_old[i]@);
                        } else if i < pp {
                            assert(sorted@[i] == s_old[i] && sorted@[j] == s_old[j - 1]);
                        } else if i == pp {
                            assert(sorted@[j] == s_old[j - 1]);
                            assert(lex_le(x@, s_old[pp]@));
                            if j - 1 > pp {
                                lemma_lex_transitive(x@, s_old[pp]@, s_old[j - 1]@);
                            }
                        } else {
                            assert(sorted@[i] == s_old[i - 1] && sorted@[j] == s_old[j - 1]);
                        }
                    }
                    assert(sorted@.to_multiset() =~= s_old.to_multiset().insert(x));
                    assert(s_old.to_multiset().add(before_rest.to_multiset()) == original.to_multiset());
                    assert(sorted@.to_multiset().add(rest@.to_multiset()) =~= s_old.to_multiset().add(
                        before_rest.to_multiset(),
                    ));
                    assert(views(sorted@) =~= views(s_old).insert(p as int, x@));
                    assert(views(s_old).insert(p as int, x@).to_multiset() == views(s_old).to_multiset().insert(x@));
                    assert(views(sorted@).to_multiset().add(views(rest@).to_multiset()) =~= views(
                        s_old,
                    ).to_multiset().add(views(before_rest).to_multiset()));
                }
            },
        }
    }
    sorted
}

/// The columns of the feature table for the given (sorted) feature names:
/// `Pencere_ID`, `Zaman_Dk`, every feature, every feature's `_DEV` twin in the
/// same order, then `E_INTERP_FRAC`, `N_INTERP_FRAC`, `Z_INTERP_FRAC`.
pub open spec fn table_columns(names: Seq<Seq<char>>) -> Seq<Seq<char>> {
    seq!["Pencere_ID"@, "Zaman_Dk"@] + names + names.map_values(|n: Seq<char>| n + "_DEV"@) + seq![
        "E_INTERP_FRAC"@,
        "N_INTERP_FRAC"@,
        "Z_INTERP_FRAC"@,
    ]
}

/// Views of a list of strings.
pub open spec fn views(v: Seq<String>) -> Seq<Seq<char>> {
    v.map_values(|s: String| s@)
}

/// Name of the first-difference column of feature `name`.
pub fn dev_column_name(name: &str) -> (col: String)
    ensures
        col@ == name@ + "_DEV"@,
{
    let mut col = String::from_str(name);
    col.append("_DEV");
    col
}

/// The column names of the feature table, in order.
pub fn column_names(names: &Vec<String>) -> (cols: Vec<String>)
    ensures
        views(cols@) == table_columns(views(names@)),
{
    let mut cols: Vec<String> = Vec::new();
    cols.push(String::from_str("Pencere_ID"));
    cols.push(String::from_str("Zaman_Dk"));
    let mut i: usize = 0;
    while i < names.len()
        invariant
            cols@.len() == 2 + i,
            i <= names@.len(),
            views(cols@) =~= seq!["Pencere_ID"@, "Zaman_Dk"@] + views(names@).take(i as int),
        decreases names@.len() - i,
    {
        let ghost before = views(cols@);
        cols.push(names[i].clone());
        proof {
            assert(views(cols@) =~= before.push(names@[i as int]@));
            assert(views(names@).take(i + 1) =~= views(names@).take(i as int).push(names@[i as int]@));
        }
        i = i + 1;
    }
    assert(views(names@).take(names@.len() as int) =~= views(names@));
    let mut j: usize = 0;
    let ghost head = views(cols@);
    let ghost devs = views(names@).map_values(|n: Seq<char>| n + "_DEV"@);
    while j < names.len()
        invariant
            j <= names@.len(),
            head.len() == 2 + names@.len(),
            devs == views(names@).map_values(|n: Seq<char>| n + "_DEV"@),
            views(cols@) =~= head + devs.take(j as int),
        decreases names@.len() - j,
    {
        let col = dev_column_name(names[j].as_str());
        let ghost before = views(cols@);
        cols.push(col);
        proof {
            assert(views(cols@) =~= before.push(names@[j as int]@ + "_DEV"@));
            assert(devs.take(j + 1) =~= devs.take(j as int).push(names@[j as int]@ + "_DEV"@));
        }
        j = j + 1;
    }
    assert(devs.take(names@.len() as int) =~= devs);
    cols.push(String::from_str("E_INTERP_FRAC"));
    cols.push(String::from_str("N_INTERP_FRAC"));
    cols.push(String::from_str("Z_INTERP_FRAC"));
    assert(views(cols@) =~= table_columns(views(names@)));
    cols
}

/// The column order does not depend on the order the feature names arrive
/// in: two lexicographically sorted name lists holding the same names (as
/// multisets of strings) are the same list.
pub proof fn lemma_sorted_names_unique(a: Seq<String>, b: Seq<String>)
    requires
        lex_sorted(a),
        lex_sorted(b),
        views(a).to_multiset() == views(b).to_multiset(),
    ensures
        views(a) == views(b),
{
    let leq = |x: Seq<char>, y: Seq<char>| lex_le(x, y);
    assert forall|x: Seq<char>| #[trigger] leq(x, x) by {
        lemma_lex_total(x, x);
    }
    assert forall|x: Seq<char>, y: Seq<char>| #[trigger] leq(x, y) && #[trigger] leq(y, x) implies x == y by {
        lemma_lex_antisymmetric(x, y);
    }
    assert forall|x: Seq<char>, y: Seq<char>, z: Seq<char>|
        #[trigger] leq(x, y) && #[trigger] leq(y, z) implies leq(x, z) by {
        lemma_lex_transitive(x, y, z);
    }
    assert forall|x: Seq<char>, y: Seq<char>| #[trigger] leq(x, y) || #[trigger] leq(y, x) by {
        lemma_lex_total(x, y);
    }
    assert(vstd::relations::total_ordering(leq));
    assert(vstd::relations::sorted_by(views(a), leq));
    assert(vstd::relations::sorted_by(views(b), leq));
    vstd::seq_lib::lemma_sorted_unique(views(a), views(b), leq);
}

} // verus!
