//! The table of supported time-zone names, and why it is fixed by the zone
//! names alone: it lists each of them once, in dictionary order.
use crate::command::MAX_CHOICES;
use crate::timestamp::is_zone_name;
use vstd::prelude::*;

verus! {

/// `a` comes strictly before `b` in dictionary order of characters (which,
/// for UTF-8 text, is the order of the bytes).
pub open spec fn text_before(a: Seq<char>, b: Seq<char>) -> bool
    decreases a.len(),
{
    if a.len() == 0 {
        b.len() > 0
    } else if b.len() == 0 {
        false
    } else if a[0] != b[0] {
        (a[0] as u32) < (b[0] as u32)
    } else {
        text_before(a.drop_first(), b.drop_first())
    }
}

/// No text comes before itself.
pub proof fn lemma_text_before_irreflexive(a: Seq<char>)
    ensures
        !text_before(a, a),
    decreases a.len(),
{
    if a.len() > 0 {
        lemma_text_before_irreflexive(a.drop_first());
    }
}

/// Dictionary order is transitive.
pub proof fn lemma_text_before_transitive(a: Seq<char>, b: Seq<char>, c: Seq<char>)
    requires
        text_before(a, b),
        text_before(b, c),
    ensures
        text_before(a, c),
    decreases a.len(),
{
    if a.len() > 0 && b.len() > 0 && c.len() > 0 && a[0] == b[0] && b[0] == c[0] {
        lemma_text_before_transitive(a.drop_first(), b.drop_first(), c.drop_first());
    }
}

/// `names` is the table of supported time zones: every entry is a zone name,
/// every zone name is an entry, and the entries are in strictly ascending
/// dictionary order. The table has more than `MAX_CHOICES` entries.
pub open spec fn is_zone_table(names: Seq<&'static str>) -> bool {
    &&& forall|i: int| 0 <= i < names.len() ==> is_zone_name(#[trigger] names[i]@)
    &&& forall|s: Seq<char>|
        #[trigger] is_zone_name(s) ==> exists|i: int| 0 <= i < names.len() && names[i]@ == s
    &&& forall|i: int, j: int|
        0 <= i < j < names.len() ==> text_before(#[trigger] names[i]@, #[trigger] names[j]@)
    &&& MAX_CHOICES < names.len()
}

/// Two entries of a zone table never hold the same text.
pub proof fn lemma_zone_table_distinct(names: Seq<&'static str>)
    requires
        is_zone_table(names),
    ensures
        names.no_duplicates(),
        forall|i: int, j: int|
            0 <= i < names.len() && 0 <= j < names.len() && i != j ==> names[i]@ != names[j]@,
{
    assert forall|i: int, j: int|
        0 <= i < names.len() && 0 <= j < names.len() && i != j implies names[i]@ != names[j]@ by {
        lemma_text_before_irreflexive(names[i]@);
        if i < j {
            assert(text_before(names[i]@, names[j]@));
        } else {
            assert(text_before(names[j]@, names[i]@));
        }
    }
}

proof fn lemma_tables_agree_upto(n1: Seq<&'static str>, n2: Seq<&'static str>, i: int)
    requires
        is_zone_table(n1),
        is_zone_table(n2),
        0 <= i <= n1.len(),
        i <= n2.len(),
    ensures
        forall|q: int| 0 <= q < i ==> n1[q]@ == n2[q]@,
    decreases i,
{
    if i > 0 {
        let p = i - 1;
        lemma_tables_agree_upto(n1, n2, p);
        lemma_zone_table_distinct(n1);
        lemma_zone_table_distinct(n2);
        let a = n1[p]@;
        let b = n2[p]@;
        if a != b {
            assert(is_zone_name(a));
            assert(is_zone_name(b));
            let j = choose|j: int| 0 <= j < n2.len() && n2[j]@ == a;
            let j2 = choose|j: int| 0 <= j < n1.len() && n1[j]@ == b;
            if j < p {
                assert(n1[j]@ == a);
            }
            if j2 < p {
                assert(n2[j2]@ == b);
            }
            assert(text_before(n2[p]@, n2[j]@));
            assert(text_before(n1[p]@, n1[j2]@));
            lemma_text_before_transitive(a, b, a);
            lemma_text_before_irreflexive(a);
        }
    }
}

/// A zone table is fixed by the zone names: any two hold the same texts in
/// the same order.
pub proof fn lemma_zone_table_unique(n1: Seq<&'static str>, n2: Seq<&'static str>)
    requires
        is_zone_table(n1),
        is_zone_table(n2),
    ensures
        n1.len() == n2.len(),
        forall|q: int| 0 <= q < n1.len() ==> #[trigger] n1[q]@ == n2[q]@,
{
    if n1.len() < n2.len() {
        lemma_tables_agree_upto(n1, n2, n1.len() as int);
        lemma_zone_table_distinct(n2);
        let m = n1.len() as int;
        assert(is_zone_name(n2[m]@));
        let j = choose|j: int| 0 <= j < n1.len() && n1[j]@ == n2[m]@;
        assert(n2[j]@ == n2[m]@);
    } else if n2.len() < n1.len() {
        lemma_tables_agree_upto(n2, n1, n2.len() as int);
        lemma_zone_table_distinct(n1);
        let m = n2.len() as int;
        assert(is_zone_name(n1[m]@));
        let j = choose|j: int| 0 <= j < n2.len() && n2[j]@ == n1[m]@;
        assert(n1[j]@ == n1[m]@);
    }
    lemma_tables_agree_upto(n1, n2, n1.len() as int);
}

} // verus!
