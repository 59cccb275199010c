//! The hierarchy store: course -> week -> exercise records with
//! replace-semantics for a week's exercise list, cascading deletes that
//! report which asset files became orphaned, rename with a uniqueness
//! check, and read queries (full listing, search, tag filtering).
//!
//! Records carry their course name and week number directly; course and
//! week rows are implied by the records under them.  Exercise ids are
//! opaque strings and unique across the store.

use vstd::prelude::*;
use crate::text::{
    contains_ci, contains_ci_exec, str_le, str_le_exec, lemma_str_le_total, lemma_str_le_trans,
};
use crate::tags::{views_of, strictly_sorted_strs, insert_sorted_unique};
use crate::foreign::{unicode_lower, unicode_lower_of};
use crate::numfmt::int_dec;
use crate::numfmt::i64_to_dec;
use vstd::multiset::Multiset;
use vstd::string::StringExecFns;

verus! {

/// A vertical region locating an exercise within its source page
/// image, in whole pixels.  The region is modelled with integers:
/// verified code holds no floating point, so a fractional region from
/// an earlier database cannot be represented and is dropped on load.
#[derive(Clone, Copy, PartialEq, Eq, Structural, Debug)]
pub struct BoundingBox {
    pub y: i64,
    pub height: i64,
}

/// A stored exercise row.
pub struct ExerciseRecord {
    pub id: String,
    pub name: String,
    pub tags: Vec<String>,
    pub course: String,
    pub week: i64,
    pub content: Option<String>,
    pub notes: Option<String>,
    pub image_path: Option<String>,
    pub page_image_path: Option<String>,
    pub bounding_box: Option<BoundingBox>,
    pub created_at: i64,
}

/// The mathematical model of one exercise row.
pub ghost struct RecModel {
    pub id: Seq<char>,
    pub name: Seq<char>,
    pub tags: Seq<Seq<char>>,
    pub course: Seq<char>,
    pub week: int,
    pub content: Option<Seq<char>>,
    pub notes: Option<Seq<char>>,
    pub image_path: Option<Seq<char>>,
    pub page_image_path: Option<Seq<char>>,
    pub bounding_box: Option<BoundingBox>,
    pub created_at: int,
}

/// The view of an optional string.
pub open spec fn opt_view(o: Option<String>) -> Option<Seq<char>> {
    match o {
        Some(s) => Some(s@),
        None => None,
    }
}

impl View for ExerciseRecord {
    type V = RecModel;

    open spec fn view(&self) -> RecModel {
        RecModel {
            id: self.id@,
            name: self.name@,
            tags: views_of(self.tags@),
            course: self.course@,
            week: self.week as int,
            content: opt_view(self.content),
            notes: opt_view(self.notes),
            image_path: opt_view(self.image_path),
            page_image_path: opt_view(self.page_image_path),
            bounding_box: self.bounding_box,
            created_at: self.created_at as int,
        }
    }
}

fn dup_opt_string(o: &Option<String>) -> (r: Option<String>)
    ensures
        opt_view(r) == opt_view(*o),
{
    match o {
        Some(s) => Some(s.clone()),
        None => None,
    }
}

fn dup_strings(v: &Vec<String>) -> (r: Vec<String>)
    ensures
        views_of(r@) == views_of(v@),
{
    let mut r: Vec<String> = Vec::new();
    let n = v.len();
    let mut i: usize = 0;
    while i < n
        invariant
            n == v@.len(),
            0 <= i <= n,
            r@.len() == i,
            forall|k: int| 0 <= k < i ==> #[trigger] r@[k]@ == v@[k]@,
        decreases n - i,
    {
        r.push(v[i].clone());
        i += 1;
    }
    proof {
        assert(views_of(r@) =~= views_of(v@));
    }
    r
}

impl ExerciseRecord {
    /// A copy of the record, equal to it in the model.
    pub fn duplicate(&self) -> (r: ExerciseRecord)
        ensures
            r@ == self@,
    {
        let r = ExerciseRecord {
            id: self.id.clone(),
            name: self.name.clone(),
            tags: dup_strings(&self.tags),
            course: self.course.clone(),
            week: self.week,
            content: dup_opt_string(&self.content),
            notes: dup_opt_string(&self.notes),
            image_path: dup_opt_string(&self.image_path),
            page_image_path: dup_opt_string(&self.page_image_path),
            bounding_box: self.bounding_box,
            created_at: self.created_at,
        };
        r
    }
}

/// A write was rejected because it would break a uniqueness or
/// referential invariant.
#[derive(Clone, Copy, PartialEq, Eq, Structural, Debug)]
pub enum StoreError {
    IntegrityViolation,
}

impl StoreError {
    /// A short description of the error.
    pub fn message(&self) -> (r: String)
        ensures
            r@ == "integrity violation"@,
    {
        let mut s = String::new();
        s.append("integrity violation");
        s
    }
}

/// The record belongs to the given course and week.
pub open spec fn in_week(m: RecModel, cn: Seq<char>, wn: int) -> bool {
    m.course == cn && m.week == wn
}

/// The record's course and week fields overridden.
pub open spec fn with_week(m: RecModel, cn: Seq<char>, wn: int) -> RecModel {
    RecModel { course: cn, week: wn, ..m }
}

/// The asset references carried by one record.
pub open spec fn rec_refs(m: RecModel) -> Set<Seq<char>> {
    let a: Set<Seq<char>> = match m.image_path {
        Some(p) => Set::empty().insert(p),
        None => Set::empty(),
    };
    match m.page_image_path {
        Some(p) => a.insert(p),
        None => a,
    }
}

/// All asset references carried by a sequence of records.
pub open spec fn refs_of(s: Seq<RecModel>) -> Set<Seq<char>> {
    Set::new(|p: Seq<char>| exists|i: int| 0 <= i < s.len() && rec_refs(#[trigger] s[i]).contains(p))
}

/// Some record of the sequence belongs to the given course.
pub open spec fn has_course(s: Seq<RecModel>, cn: Seq<char>) -> bool {
    exists|i: int| 0 <= i < s.len() && (#[trigger] s[i]).course == cn
}

/// Some record of the sequence belongs to the given course and week.
pub open spec fn has_week(s: Seq<RecModel>, cn: Seq<char>, wn: int) -> bool {
    exists|i: int| 0 <= i < s.len() && in_week(#[trigger] s[i], cn, wn)
}

/// The records of one week, in store order.
pub open spec fn week_recs(s: Seq<RecModel>, cn: Seq<char>, wn: int) -> Seq<RecModel> {
    s.filter(|m: RecModel| in_week(m, cn, wn))
}

/// Unfolding of `filter` over `push`.
pub proof fn lemma_filter_push<A>(s: Seq<A>, x: A, p: spec_fn(A) -> bool)
    ensures
        s.push(x).filter(p) == if p(x) {
            s.filter(p).push(x)
        } else {
            s.filter(p)
        },
{
    reveal(Seq::filter);
    assert(s.push(x).drop_last() =~= s);
    assert(s.push(x).last() == x);
}

/// A filtered sequence keeps only elements of the original.
pub proof fn lemma_filter_membership<A>(s: Seq<A>, p: spec_fn(A) -> bool)
    ensures
        forall|e: A| #[trigger]
            s.filter(p).contains(e) <==> exists|i: int| 0 <= i < s.len() && s[i] == e && p(e),
    decreases s.len(),
{
    reveal(Seq::filter);
    if s.len() > 0 {
        lemma_filter_membership(s.drop_last(), p);
        assert(s =~= s.drop_last().push(s.last()));
        lemma_filter_push(s.drop_last(), s.last(), p);
        assert forall|e: A| #[trigger] s.filter(p).contains(e) implies exists|i: int|
            0 <= i < s.len() && s[i] == e && p(e) by {
            if s.drop_last().filter(p).contains(e) {
                let i = choose|i: int| 0 <= i < s.drop_last().len() && s.drop_last()[i] == e && p(e);
                assert(s[i] == e);
            } else {
                assert(e == s.last() && p(e));
                assert(s[s.len() - 1] == e);
            }
        }
        assert forall|e: A| (exists|i: int| 0 <= i < s.len() && s[i] == e && p(e)) implies #[trigger]
            s.filter(p).contains(e) by {
            let i = choose|i: int| 0 <= i < s.len() && s[i] == e && p(e);
            if i < s.len() - 1 {
                assert(s.drop_last()[i] == e);
                assert(s.drop_last().filter(p).contains(e));
                let j = choose|j: int|
                    0 <= j < s.drop_last().filter(p).len() && s.drop_last().filter(p)[j] == e;
                assert(s.filter(p).contains(e)) by {
                    if p(s.last()) {
                        assert(s.filter(p)[j] == e);
                    }
                }
            } else {
                assert(e == s.last());
                if p(s.last()) {
                    assert(s.filter(p).last() == e);
                }
            }
        }
    }
}

/// The models of a sequence of records.
pub open spec fn models_of(v: Seq<ExerciseRecord>) -> Seq<RecModel> {
    v.map_values(|e: ExerciseRecord| e@)
}

/// Ids are pairwise distinct.
pub open spec fn distinct_ids(s: Seq<RecModel>) -> bool {
    forall|i: int, j: int|
        0 <= i < j < s.len() ==> (#[trigger] s[i]).id != (#[trigger] s[j]).id
}

/// The records that are not under the given course and week.
pub open spec fn sans_week(s: Seq<RecModel>, cn: Seq<char>, wn: int) -> Seq<RecModel> {
    s.filter(|m: RecModel| !in_week(m, cn, wn))
}

/// The records whose id differs from the given one.
pub open spec fn sans_id(s: Seq<RecModel>, id: Seq<char>) -> Seq<RecModel> {
    s.filter(|m: RecModel| m.id != id)
}

/// The records that are not under the given course.
pub open spec fn sans_course(s: Seq<RecModel>, cn: Seq<char>) -> Seq<RecModel> {
    s.filter(|m: RecModel| m.course != cn)
}

/// A week replacement is accepted: the incoming ids are pairwise
/// distinct and collide with no record outside the replaced week.
pub open spec fn replace_ok(
    s: Seq<RecModel>,
    cn: Seq<char>,
    wn: int,
    items: Seq<RecModel>,
) -> bool {
    distinct_ids(items) && forall|i: int, j: int|
        0 <= i < items.len() && 0 <= j < s.len() && !in_week(#[trigger] s[j], cn, wn) ==> (
        #[trigger] items[i]).id != s[j].id
}

/// The store contents after a week replacement: every record outside
/// the week is kept in order, and the incoming records follow, each
/// stamped with the course and week.
pub open spec fn replace_result(
    s: Seq<RecModel>,
    cn: Seq<char>,
    wn: int,
    items: Seq<RecModel>,
) -> Seq<RecModel> {
    sans_week(s, cn, wn) + items.map_values(|m: RecModel| with_week(m, cn, wn))
}

/// The store contents after renaming and retagging one exercise.
pub open spec fn retitled(
    s: Seq<RecModel>,
    id: Seq<char>,
    name: Seq<char>,
    tags: Seq<Seq<char>>,
) -> Seq<RecModel> {
    s.map_values(
        |m: RecModel|
            if m.id == id {
                RecModel { name: name, tags: tags, ..m }
            } else {
                m
            },
    )
}

/// The store contents after a course rename.
pub open spec fn renamed(s: Seq<RecModel>, from: Seq<char>, to: Seq<char>) -> Seq<RecModel> {
    s.map_values(
        |m: RecModel|
            if m.course == from {
                RecModel { course: to, ..m }
            } else {
                m
            },
    )
}

/// Filtering preserves distinctness of ids.
proof fn lemma_distinct_ids_filter(s: Seq<RecModel>, p: spec_fn(RecModel) -> bool)
    requires
        distinct_ids(s),
    ensures
        distinct_ids(s.filter(p)),
{
    assert forall|i: int, j: int| 0 <= i < j < s.filter(p).len() implies (#[trigger] s.filter(
        p,
    )[i]).id != (#[trigger] s.filter(p)[j]).id by {
        lemma_filter_distinct_positions(s, p, i, j);
    }
}

/// Concatenation preserves distinctness of ids when no id crosses over.
proof fn lemma_distinct_ids_concat(a: Seq<RecModel>, b: Seq<RecModel>)
    requires
        distinct_ids(a),
        distinct_ids(b),
        forall|i: int, j: int|
            0 <= i < a.len() && 0 <= j < b.len() ==> (#[trigger] a[i]).id != (#[trigger] b[j]).id,
    ensures
        distinct_ids(a + b),
{
    assert forall|i: int, j: int| 0 <= i < j < (a + b).len() implies (#[trigger] (a + b)[i]).id != (
    #[trigger] (a + b)[j]).id by {
        if i < a.len() && j < a.len() {
            assert((a + b)[i] == a[i] && (a + b)[j] == a[j]);
        } else if i < a.len() {
            assert((a + b)[i] == a[i] && (a + b)[j] == b[j - a.len()]);
        } else {
            assert((a + b)[i] == b[i - a.len()] && (a + b)[j] == b[j - a.len()]);
        }
    }
}

/// Asset references of a sequence extended by one record.
proof fn lemma_refs_push(s: Seq<RecModel>, m: RecModel)
    ensures
        refs_of(s.push(m)) == refs_of(s).union(rec_refs(m)),
{
    assert forall|p: Seq<char>|
        refs_of(s.push(m)).contains(p) <==> refs_of(s).union(rec_refs(m)).contains(p) by {
        if refs_of(s).contains(p) {
            let i = choose|i: int| 0 <= i < s.len() && rec_refs(#[trigger] s[i]).contains(p);
            assert(rec_refs(s.push(m)[i]).contains(p));
        }
        if rec_refs(m).contains(p) {
            assert(rec_refs(s.push(m)[s.len() as int]).contains(p));
        }
        if refs_of(s.push(m)).contains(p) {
            let i = choose|i: int|
                0 <= i < s.push(m).len() && rec_refs(#[trigger] s.push(m)[i]).contains(p);
            if i < s.len() {
                assert(rec_refs(s[i]).contains(p));
            }
        }
    }
    assert(refs_of(s.push(m)) =~= refs_of(s).union(rec_refs(m)));
}

/// The references of a sequence split by complementary predicates.
proof fn lemma_refs_partition(
    s: Seq<RecModel>,
    p: spec_fn(RecModel) -> bool,
    q: spec_fn(RecModel) -> bool,
)
    requires
        forall|m: RecModel| #[trigger] q(m) <==> !(#[trigger] p(m)),
    ensures
        refs_of(s) == refs_of(s.filter(p)).union(refs_of(s.filter(q))),
{
    lemma_filter_membership(s, p);
    lemma_filter_membership(s, q);
    assert forall|x: Seq<char>|
        refs_of(s).contains(x) <==> refs_of(s.filter(p)).union(refs_of(s.filter(q))).contains(
            x,
        ) by {
        if refs_of(s).contains(x) {
            let i = choose|i: int| 0 <= i < s.len() && rec_refs(#[trigger] s[i]).contains(x);
            if p(s[i]) {
                assert(s.filter(p).contains(s[i]));
                let j = choose|j: int|
                    0 <= j < s.filter(p).len() && #[trigger] s.filter(p)[j] == s[i];
                assert(rec_refs(s.filter(p)[j]).contains(x));
            } else {
                assert(q(s[i]));
                assert(s.filter(q).contains(s[i]));
                let j = choose|j: int|
                    0 <= j < s.filter(q).len() && #[trigger] s.filter(q)[j] == s[i];
                assert(rec_refs(s.filter(q)[j]).contains(x));
            }
        }
        if refs_of(s.filter(p)).contains(x) {
            let j = choose|j: int|
                0 <= j < s.filter(p).len() && rec_refs(#[trigger] s.filter(p)[j]).contains(x);
            assert(s.filter(p).contains(s.filter(p)[j]));
            let i = choose|i: int| 0 <= i < s.len() && s[i] == s.filter(p)[j] && p(s.filter(p)[j]);
            assert(rec_refs(s[i]).contains(x));
        }
        if refs_of(s.filter(q)).contains(x) {
            let j = choose|j: int|
                0 <= j < s.filter(q).len() && rec_refs(#[trigger] s.filter(q)[j]).contains(x);
            assert(s.filter(q).contains(s.filter(q)[j]));
            let i = choose|i: int| 0 <= i < s.len() && s[i] == s.filter(q)[j] && q(s.filter(q)[j]);
            assert(rec_refs(s[i]).contains(x));
        }
    }
    assert(refs_of(s) =~= refs_of(s.filter(p)).union(refs_of(s.filter(q))));
}

/// The element set of a sequence extended by one element.
pub proof fn lemma_to_set_push<A>(s: Seq<A>, x: A)
    ensures
        s.push(x).to_set() == s.to_set().insert(x),
{
    assert forall|e: A| s.push(x).to_set().contains(e) <==> s.to_set().insert(x).contains(e) by {
        if s.contains(e) {
            let i = choose|i: int| 0 <= i < s.len() && s[i] == e;
            assert(s.push(x)[i] == e);
        }
        if e == x {
            assert(s.push(x)[s.len() as int] == e);
        }
        if s.push(x).contains(e) {
            let i = choose|i: int| 0 <= i < s.push(x).len() && s.push(x)[i] == e;
            if i < s.len() {
                assert(s[i] == e);
            }
        }
    }
    assert(s.push(x).to_set() =~= s.to_set().insert(x));
}

/// Filtering with pointwise equal predicates gives equal sequences.
pub proof fn lemma_filter_congruent<A>(s: Seq<A>, p: spec_fn(A) -> bool, q: spec_fn(A) -> bool)
    requires
        forall|x: A| #[trigger] p(x) == #[trigger] q(x),
    ensures
        s.filter(p) == s.filter(q),
    decreases s.len(),
{
    reveal(Seq::filter);
    if s.len() > 0 {
        lemma_filter_congruent(s.drop_last(), p, q);
    }
}

/// A filter that keeps everything is the identity.
pub proof fn lemma_filter_all<A>(s: Seq<A>, p: spec_fn(A) -> bool)
    requires
        forall|i: int| 0 <= i < s.len() ==> p(#[trigger] s[i]),
    ensures
        s.filter(p) == s,
    decreases s.len(),
{
    reveal(Seq::filter);
    if s.len() > 0 {
        lemma_filter_all(s.drop_last(), p);
        assert(s.filter(p) =~= s);
    }
}

/// A filter that keeps nothing gives the empty sequence.
pub proof fn lemma_filter_none<A>(s: Seq<A>, p: spec_fn(A) -> bool)
    requires
        forall|i: int| 0 <= i < s.len() ==> !p(#[trigger] s[i]),
    ensures
        s.filter(p) == Seq::<A>::empty(),
    decreases s.len(),
{
    reveal(Seq::filter);
    if s.len() > 0 {
        lemma_filter_none(s.drop_last(), p);
        assert(s.filter(p) =~= Seq::<A>::empty());
    }
}

/// The records of one course, in store order.
pub open spec fn course_recs(s: Seq<RecModel>, cn: Seq<char>) -> Seq<RecModel> {
    s.filter(|m: RecModel| m.course == cn)
}

/// Selects a slice of the store for deletion: one exercise by id, one
/// week of a course, or a whole course.
pub enum Selector {
    ById(String),
    ByWeek(String, i64),
    ByCourse(String),
}

/// The model of a deletion selector.
pub ghost enum SelModel {
    ById(Seq<char>),
    ByWeek(Seq<char>, int),
    ByCourse(Seq<char>),
}

impl View for Selector {
    type V = SelModel;

    open spec fn view(&self) -> SelModel {
        match self {
            Selector::ById(id) => SelModel::ById(id@),
            Selector::ByWeek(cn, wn) => SelModel::ByWeek(cn@, *wn as int),
            Selector::ByCourse(cn) => SelModel::ByCourse(cn@),
        }
    }
}

/// Whether a record falls under a deletion selector.
pub open spec fn sel_matches(sel: SelModel, m: RecModel) -> bool {
    match sel {
        SelModel::ById(id) => m.id == id,
        SelModel::ByWeek(cn, wn) => in_week(m, cn, wn),
        SelModel::ByCourse(cn) => m.course == cn,
    }
}

/// A summary of one exercise as shown in week listings.
pub struct ExerciseData {
    pub id: Option<String>,
    pub name: String,
    pub tags: Vec<String>,
    pub image: Option<String>,
}

/// The exercises of one week, in store order.
pub struct WeekData {
    pub exercises: Vec<ExerciseData>,
}

/// One week of a course listing, labelled for display.
pub struct WeekEntry {
    pub label: String,
    pub week_number: i64,
    pub data: WeekData,
}

/// The weeks of one course, in ascending week order.
pub struct CourseData {
    pub weeks: Vec<WeekEntry>,
}

/// One course of the full listing.
pub struct CourseEntry {
    pub name: String,
    pub data: CourseData,
}

/// The full hierarchy, courses in ascending name order.
pub struct DatabaseState {
    pub courses: Vec<CourseEntry>,
}

/// A search or filter result row.
pub struct ExerciseInfo {
    pub id: String,
    pub name: String,
    pub tags: Vec<String>,
    pub image_path: Option<String>,
}

/// The summary faithfully reflects the record.
pub open spec fn summary_ok(d: ExerciseData, m: RecModel) -> bool {
    opt_view(d.id) == Some(m.id) && d.name@ == m.name && views_of(d.tags@) == m.tags && opt_view(
        d.image,
    ) == m.image_path
}

/// The summaries reflect the records pointwise.
pub open spec fn summaries_ok(ds: Seq<ExerciseData>, ms: Seq<RecModel>) -> bool {
    ds.len() == ms.len() && forall|k: int| 0 <= k < ms.len() ==> summary_ok(#[trigger] ds[k], ms[k])
}

/// The display label of a week.
pub open spec fn week_label_spec(n: int) -> Seq<char> {
    "week"@ + int_dec(n)
}

/// The week entry carries the week's label and its exercise summaries.
pub open spec fn week_entry_ok(s: Seq<RecModel>, cn: Seq<char>, we: WeekEntry) -> bool {
    we.label@ == week_label_spec(we.week_number as int) && summaries_ok(
        we.data.exercises@,
        week_recs(s, cn, we.week_number as int),
    )
}

/// The course data lists exactly the course's weeks, in ascending week
/// order, each with its exercise summaries.
pub open spec fn course_data_ok(s: Seq<RecModel>, cn: Seq<char>, cd: CourseData) -> bool {
    &&& forall|a: int, b: int|
        0 <= a < b < cd.weeks@.len() ==> (#[trigger] cd.weeks@[a]).week_number < (
        #[trigger] cd.weeks@[b]).week_number
    &&& forall|k: int|
        0 <= k < cd.weeks@.len() ==> has_week(s, cn, (#[trigger] cd.weeks@[k]).week_number as int)
            && week_entry_ok(s, cn, cd.weeks@[k])
    &&& forall|w: int|
        #[trigger] has_week(s, cn, w) ==> exists|k: int|
            0 <= k < cd.weeks@.len() && (#[trigger] cd.weeks@[k]).week_number == w
}

/// The full listing holds every course, in ascending name order, each
/// with faithful course data.
pub open spec fn db_state_ok(s: Seq<RecModel>, db: DatabaseState) -> bool {
    &&& forall|a: int, b: int|
        0 <= a < b < db.courses@.len() ==> crate::text::str_lt(
            (#[trigger] db.courses@[a]).name@,
            (#[trigger] db.courses@[b]).name@,
        )
    &&& forall|k: int|
        0 <= k < db.courses@.len() ==> has_course(s, (#[trigger] db.courses@[k]).name@)
            && course_data_ok(s, db.courses@[k].name@, db.courses@[k].data)
    &&& forall|cn: Seq<char>|
        #[trigger] has_course(s, cn) ==> exists|k: int|
            0 <= k < db.courses@.len() && (#[trigger] db.courses@[k]).name@ == cn
}

/// The result row faithfully reflects the record.
pub open spec fn info_ok(d: ExerciseInfo, m: RecModel) -> bool {
    d.id@ == m.id && d.name@ == m.name && views_of(d.tags@) == m.tags && opt_view(d.image_path)
        == m.image_path
}

/// The result rows reflect the records pointwise.
pub open spec fn infos_ok(ds: Seq<ExerciseInfo>, ms: Seq<RecModel>) -> bool {
    ds.len() == ms.len() && forall|k: int| 0 <= k < ms.len() ==> info_ok(#[trigger] ds[k], ms[k])
}

/// The records whose name contains the query, case-insensitively.
pub open spec fn search_results(s: Seq<RecModel>, q: Seq<char>) -> Seq<RecModel> {
    s.filter(|m: RecModel| contains_ci(m.name, q))
}

/// The record shares at least one tag with the filter set, compared
/// under Unicode case folding.
pub open spec fn tag_match(m: RecModel, fs: Seq<Seq<char>>) -> bool {
    exists|i: int, j: int|
        0 <= i < m.tags.len() && 0 <= j < fs.len() && unicode_lower_of(#[trigger] m.tags[i])
            == unicode_lower_of(#[trigger] fs[j])
}

/// The records sharing at least one tag with the filter set.
pub open spec fn tag_filter_results(s: Seq<RecModel>, fs: Seq<Seq<char>>) -> Seq<RecModel> {
    s.filter(|m: RecModel| tag_match(m, fs))
}

/// Name-ascending order on records.
pub open spec fn name_sorted(s: Seq<RecModel>) -> bool {
    forall|i: int, j: int|
        0 <= i < j < s.len() ==> str_le((#[trigger] s[i]).name, (#[trigger] s[j]).name)
}

/// A record inserted into a name-ordered sequence: it goes after
/// every record whose name is not greater, so records of equal name
/// keep their relative order.
pub open spec fn insert_by_name(s: Seq<RecModel>, m: RecModel) -> Seq<RecModel>
    decreases s.len(),
{
    if s.len() == 0 {
        seq![m]
    } else if str_le(s.last().name, m.name) {
        s.push(m)
    } else {
        insert_by_name(s.drop_last(), m).push(s.last())
    }
}

/// The stable name-ascending ordering of a record sequence.
pub open spec fn sort_by_name(s: Seq<RecModel>) -> Seq<RecModel>
    decreases s.len(),
{
    if s.len() == 0 {
        Seq::empty()
    } else {
        insert_by_name(sort_by_name(s.drop_last()), s.last())
    }
}

proof fn lemma_insert_by_name_ensures(s: Seq<RecModel>, m: RecModel)
    ensures
        insert_by_name(s, m).to_multiset() == s.to_multiset().insert(m),
        name_sorted(s) ==> name_sorted(insert_by_name(s, m)),
        insert_by_name(s, m).len() == s.len() + 1,
    decreases s.len(),
{
    broadcast use vstd::seq_lib::group_to_multiset_ensures;

    if s.len() == 0 {
        assert(seq![m].drop_last() =~= Seq::<RecModel>::empty());
        assert(seq![m] =~= Seq::<RecModel>::empty().push(m));
        assert(Seq::<RecModel>::empty().to_multiset() =~= Multiset::<RecModel>::empty());
        assert(insert_by_name(s, m).to_multiset() =~= s.to_multiset().insert(m));
    } else if str_le(s.last().name, m.name) {
        if name_sorted(s) {
            assert forall|i: int, j: int|
                0 <= i < j < s.push(m).len() implies str_le(
                (#[trigger] s.push(m)[i]).name,
                (#[trigger] s.push(m)[j]).name,
            ) by {
                if j < s.len() {
                    assert(s.push(m)[i] == s[i] && s.push(m)[j] == s[j]);
                } else {
                    assert(s.push(m)[j] == m);
                    if i < s.len() - 1 {
                        assert(s.push(m)[i] == s[i]);
                        assert(str_le(s[i].name, s.last().name));
                        lemma_str_le_trans(s[i].name, s.last().name, m.name);
                    }
                }
            }
        }
    } else {
        lemma_insert_by_name_ensures(s.drop_last(), m);
        let inner = insert_by_name(s.drop_last(), m);
        assert(insert_by_name(s, m).to_multiset() =~= s.to_multiset().insert(m)) by {
            assert(insert_by_name(s, m).to_multiset() == inner.to_multiset().insert(s.last()));
            assert(inner.to_multiset() == s.drop_last().to_multiset().insert(m));
            assert(s =~= s.drop_last().push(s.last()));
            assert(s.to_multiset() == s.drop_last().to_multiset().insert(s.last()));
        }
        if name_sorted(s) {
            assert(name_sorted(s.drop_last())) by {
                assert(forall|i: int, j: int|
                    0 <= i < j < s.drop_last().len() ==> s.drop_last()[i] == s[i]
                        && s.drop_last()[j] == s[j]);
            }
            lemma_str_le_total(s.last().name, m.name);
            assert(str_le(m.name, s.last().name));
            // Every record of the inner insertion sorts below the last.
            assert forall|i: int, j: int|
                0 <= i < j < inner.push(s.last()).len() implies str_le(
                (#[trigger] inner.push(s.last())[i]).name,
                (#[trigger] inner.push(s.last())[j]).name,
            ) by {
                if j < inner.len() {
                    assert(inner.push(s.last())[i] == inner[i] && inner.push(s.last())[j]
                        == inner[j]);
                } else {
                    assert(inner.push(s.last())[j] == s.last());
                    assert(inner.push(s.last())[i] == inner[i]);
                    assert(inner.to_multiset().contains(inner[i]));
                    assert(s.drop_last().to_multiset().insert(m).contains(inner[i]));
                    if inner[i] == m {
                        assert(str_le(m.name, s.last().name));
                    } else {
                        assert(s.drop_last().to_multiset().contains(inner[i]));
                        assert(s.drop_last().contains(inner[i]));
                        let w = choose|w: int|
                            0 <= w < s.drop_last().len() && s.drop_last()[w] == inner[i];
                        assert(s[w] == inner[i]);
                        assert(str_le(s[w].name, s.last().name));
                    }
                }
            }
        }
    }
}

/// Law: the name ordering used by search is a permutation of its
/// input, sorted by name ascending.
pub proof fn lemma_sort_by_name_ensures(s: Seq<RecModel>)
    ensures
        sort_by_name(s).to_multiset() == s.to_multiset(),
        name_sorted(sort_by_name(s)),
        sort_by_name(s).len() == s.len(),
    decreases s.len(),
{
    broadcast use vstd::seq_lib::group_to_multiset_ensures;

    if s.len() == 0 {
        assert(Seq::<RecModel>::empty().to_multiset() =~= Multiset::<RecModel>::empty());
        assert(s.to_multiset() =~= Multiset::<RecModel>::empty());
    } else {
        lemma_sort_by_name_ensures(s.drop_last());
        lemma_insert_by_name_ensures(sort_by_name(s.drop_last()), s.last());
        assert(s =~= s.drop_last().push(s.last()));
        assert(s.to_multiset() == s.drop_last().to_multiset().insert(s.last()));
    }
}

fn insert_sorted_i64(v: &Vec<i64>, x: i64) -> (out: Vec<i64>)
    requires
        forall|a: int, b: int| 0 <= a < b < v@.len() ==> v@[a] < v@[b],
    ensures
        forall|a: int, b: int| 0 <= a < b < out@.len() ==> out@[a] < out@[b],
        forall|y: i64| out@.contains(y) <==> (v@.contains(y) || y == x),
{
    let n = v.len();
    let mut pos: usize = 0;
    while pos < n && v[pos] < x
        invariant
            n == v@.len(),
            0 <= pos <= n,
            forall|k: int| 0 <= k < pos ==> v@[k] < x,
        decreases n - pos,
    {
        pos += 1;
    }
    if pos < n && v[pos] == x {
        let out = v.clone();
        proof {
            assert(out@ =~= v@);
            assert(v@[pos as int] == x);
            assert forall|y: i64| out@.contains(y) <==> (v@.contains(y) || y == x) by {
                if y == x {
                    assert(v@.contains(y)) by {
                        assert(v@[pos as int] == y);
                    }
                }
            }
        }
        return out;
    }
    let mut out: Vec<i64> = Vec::new();
    let mut k: usize = 0;
    while k < pos
        invariant
            pos <= n,
            n == v@.len(),
            0 <= k <= pos,
            out@ =~= v@.take(k as int),
        decreases pos - k,
    {
        out.push(v[k]);
        proof {
            assert(out@ =~= v@.take(k + 1));
        }
        k += 1;
    }
    out.push(x);
    while k < n
        invariant
            pos <= n,
            n == v@.len(),
            pos <= k <= n,
            out@ =~= v@.take(pos as int).push(x) + v@.skip(pos as int).take(k - pos),
        decreases n - k,
    {
        out.push(v[k]);
        proof {
            assert(out@ =~= v@.take(pos as int).push(x) + v@.skip(pos as int).take(
                k + 1 - pos,
            ));
        }
        k += 1;
    }
    proof {
        assert(out@ =~= v@.take(pos as int).push(x) + v@.skip(pos as int));
        assert forall|a: int, b: int| 0 <= a < b < out@.len() implies out@[a] < out@[b] by {
            assert(pos < n ==> x < v@[pos as int]);
            if a < pos {
                assert(out@[a] == v@[a]);
            } else if a == pos {
                assert(out@[a] == x);
            } else {
                assert(out@[a] == v@[a - 1]);
            }
            if b < pos {
                assert(out@[b] == v@[b]);
            } else if b == pos {
                assert(out@[b] == x);
            } else {
                assert(out@[b] == v@[b - 1]);
            }
        }
        assert forall|y: i64| out@.contains(y) <==> (v@.contains(y) || y == x) by {
            if out@.contains(y) {
                let w = choose|w: int| 0 <= w < out@.len() && out@[w] == y;
                if w < pos {
                    assert(v@[w] == y);
                } else if w == pos {
                } else {
                    assert(v@[w - 1] == y);
                }
            }
            if v@.contains(y) {
                let w = choose|w: int| 0 <= w < v@.len() && v@[w] == y;
                if w < pos {
                    assert(out@[w] == y);
                } else {
                    assert(out@[w + 1] == y);
                }
            }
            if y == x {
                assert(out@[pos as int] == y);
            }
        }
    }
    out
}

/// The display label of a week number.
pub fn week_label(n: i64) -> (r: String)
    ensures
        r@ == week_label_spec(n as int),
{
    let digits = i64_to_dec(n);
    let mut s = String::new();
    s.append("week");
    s.append(digits.as_str());
    s
}

/// The persistent store of exercise records.
pub struct HierarchyStore {
    pub exercises: Vec<ExerciseRecord>,
}

impl View for HierarchyStore {
    type V = Seq<RecModel>;

    open spec fn view(&self) -> Seq<RecModel> {
        self.exercises@.map_values(|e: ExerciseRecord| e@)
    }
}

impl HierarchyStore {
    /// Exercise ids are unique across the store.
    pub open spec fn wf(self) -> bool {
        distinct_ids(self@)
    }

    /// An empty store.
    pub fn new() -> (r: HierarchyStore)
        ensures
            r.wf(),
            r@ == Seq::<RecModel>::empty(),
    {
        let r = HierarchyStore { exercises: Vec::new() };
        proof {
            assert(r@ =~= Seq::<RecModel>::empty());
        }
        r
    }

    /// Inserts a record, replacing any record with the same id wherever
    /// it was stored.  The record ends up last in store order.
    #[verifier::loop_isolation(false)]
    pub fn upsert_exercise(&mut self, rec: &ExerciseRecord)
        requires
            old(self).wf(),
        ensures
            final(self).wf(),
            final(self)@ == sans_id(old(self)@, rec@.id).push(rec@),
    {
        let n = self.exercises.len();
        let mut kept: Vec<ExerciseRecord> = Vec::new();
        let mut i: usize = 0;
        proof {
            assert(old(self)@.take(0).filter(|m: RecModel| m.id != rec@.id) =~= Seq::<
                RecModel,
            >::empty());
            assert(kept@.map_values(|e: ExerciseRecord| e@) =~= Seq::<RecModel>::empty());
        }
        while i < n
            invariant
                n == self.exercises@.len(),
                self@ == old(self)@,
                0 <= i <= n,
                kept@.map_values(|e: ExerciseRecord| e@) == old(self)@.take(i as int).filter(
                    |m: RecModel| m.id != rec@.id,
                ),
            decreases n - i,
    {
            let keep = !(self.exercises[i].id == rec.id);
            proof {
                assert(keep == ((|m: RecModel| m.id != rec@.id)(old(self)@[i as int])));
                assert(old(self)@.take(i + 1) =~= old(self)@.take(i as int).push(
                    old(self)@[i as int],
                ));
                lemma_filter_push(
                    old(self)@.take(i as int),
                    old(self)@[i as int],
                    |m: RecModel| m.id != rec@.id,
                );
            }
            if keep {
                let d = self.exercises[i].duplicate();
                proof {
                    assert(d@ == old(self)@[i as int]);
                    assert(kept@.map_values(|e: ExerciseRecord| e@).push(d@) =~= kept@.push(
                        d,
                    ).map_values(|e: ExerciseRecord| e@));
                }
                kept.push(d);
            }
            i += 1;
        }
        proof {
            assert(old(self)@.take(n as int) =~= old(self)@);
        }
        let r = rec.duplicate();
        proof {
            assert(kept@.map_values(|e: ExerciseRecord| e@).push(r@) =~= kept@.push(r).map_values(
                |e: ExerciseRecord| e@,
            ));
        }
        kept.push(r);
        self.exercises = kept;
        proof {
            let news = self@;
            let olds = old(self)@.filter(|m: RecModel| m.id != rec@.id);
            assert(news =~= olds.push(r@));
            lemma_wf_after_filter_push(old(self)@, |m: RecModel| m.id != rec@.id, r@);
            lemma_filter_congruent(
                old(self)@,
                |m: RecModel| m.id != rec@.id,
                |m: RecModel| m.id != rec.id@,
            );
        }
    }

    /// Whether some record belongs to the given course.
    #[verifier::loop_isolation(false)]
    pub fn has_course_exec(&self, name: &String) -> (r: bool)
        ensures
            r == has_course(self@, name@),
    {
        let n = self.exercises.len();
        let mut i: usize = 0;
        while i < n
            invariant
                n == self.exercises@.len(),
                0 <= i <= n,
                forall|k: int| 0 <= k < i ==> (#[trigger] self@[k]).course != name@,
            decreases n - i,
        {
            if self.exercises[i].course == *name {
                proof {
                    assert(self@[i as int].course == name@);
                }
                return true;
            }
            i += 1;
        }
        false
    }

    /// Atomically replaces the whole exercise list of one week: every
    /// record of that course and week is removed and the given records
    /// are stored in their place, stamped with the course and week.
    /// The write is rejected as an integrity violation when the
    /// incoming ids are not pairwise distinct or collide with a record
    /// outside the replaced week; a rejected write changes nothing.
    #[verifier::loop_isolation(false)]
    pub fn replace_week_exercises(
        &mut self,
        course: &String,
        week_number: i64,
        items: &Vec<ExerciseRecord>,
    ) -> (r: Result<(), StoreError>)
        requires
            old(self).wf(),
        ensures
            final(self).wf(),
            r is Ok <==> replace_ok(
                old(self)@,
                course@,
                week_number as int,
                models_of(items@),
            ),
            r is Ok ==> final(self)@ == replace_result(
                old(self)@,
                course@,
                week_number as int,
                models_of(items@),
            ),
            r is Err ==> final(self)@ == old(self)@ && r == Err::<(), StoreError>(
                StoreError::IntegrityViolation,
            ),
    {
        let m = items.len();
        let n = self.exercises.len();
        // Incoming ids must be pairwise distinct.
        let mut i: usize = 0;
        while i < m
            invariant
                m == items@.len(),
                0 <= i <= m,
                self@ == old(self)@,
                forall|a: int, b: int|
                    0 <= a < b < m && a < i ==> (#[trigger] models_of(items@)[a]).id != (
                    #[trigger] models_of(items@)[b]).id,
            decreases m - i,
        {
            let mut j: usize = i + 1;
            while j < m
                invariant
                    m == items@.len(),
                    0 <= i < m,
                    i < j <= m,
                    self@ == old(self)@,
                    forall|a: int, b: int|
                        0 <= a < b < m && a < i ==> (#[trigger] models_of(items@)[a]).id != (
                        #[trigger] models_of(items@)[b]).id,
                    forall|b: int|
                        i < b < j ==> (#[trigger] models_of(items@)[b]).id != models_of(
                            items@,
                        )[i as int].id,
                decreases m - j,
            {
                if items[i].id == items[j].id {
                    proof {
                        assert(models_of(items@)[i as int].id == models_of(items@)[j as int].id);
                        assert(!distinct_ids(models_of(items@)));
                        assert(self.wf());
                    }
                    return Err(StoreError::IntegrityViolation);
                }
                j += 1;
            }
            i += 1;
        }
        // Incoming ids must not collide with a record outside the week.
        let mut k: usize = 0;
        while k < n
            invariant
                m == items@.len(),
                n == self.exercises@.len(),
                0 <= k <= n,
                self@ == old(self)@,
                forall|a: int, b: int|
                    0 <= a < m && 0 <= b < k && !in_week(#[trigger] old(self)@[b], course@,
                    week_number as int) ==> (#[trigger] models_of(items@)[a]).id != old(
                        self,
                    )@[b].id,
            decreases n - k,
        {
            let outside = !(self.exercises[k].course == *course && self.exercises[k].week
                == week_number);
            proof {
                assert(outside == !in_week(old(self)@[k as int], course@, week_number as int));
            }
            if outside {
                let mut a: usize = 0;
                while a < m
                    invariant
                        m == items@.len(),
                        n == self.exercises@.len(),
                        0 <= k < n,
                        0 <= a <= m,
                        self@ == old(self)@,
                        !in_week(old(self)@[k as int], course@, week_number as int),
                        forall|b: int|
                            0 <= b < a ==> (#[trigger] models_of(items@)[b]).id != old(
                                self,
                            )@[k as int].id,
                    decreases m - a,
                {
                    if items[a].id == self.exercises[k].id {
                        proof {
                            assert(models_of(items@)[a as int].id == old(self)@[k as int].id);
                            assert(!replace_ok(
                                old(self)@,
                                course@,
                                week_number as int,
                                models_of(items@),
                            ));
                            assert(self.wf());
                        }
                        return Err(StoreError::IntegrityViolation);
                    }
                    a += 1;
                }
            }
            k += 1;
        }
        // Keep every record outside the week.
        let mut kept: Vec<ExerciseRecord> = Vec::new();
        let mut t: usize = 0;
        proof {
            assert(old(self)@.take(0).filter(
                |mm: RecModel| !in_week(mm, course@, week_number as int),
            ) =~= Seq::<RecModel>::empty());
            assert(models_of(kept@) =~= Seq::<RecModel>::empty());
        }
        while t < n
            invariant
                n == self.exercises@.len(),
                0 <= t <= n,
                self@ == old(self)@,
                models_of(kept@) == old(self)@.take(t as int).filter(
                    |mm: RecModel| !in_week(mm, course@, week_number as int),
                ),
            decreases n - t,
        {
            let keep = !(self.exercises[t].course == *course && self.exercises[t].week
                == week_number);
            proof {
                assert(keep == ((|mm: RecModel| !in_week(mm, course@, week_number as int))(
                    old(self)@[t as int],
                )));
                assert(old(self)@.take(t + 1) =~= old(self)@.take(t as int).push(
                    old(self)@[t as int],
                ));
                lemma_filter_push(
                    old(self)@.take(t as int),
                    old(self)@[t as int],
                    |mm: RecModel| !in_week(mm, course@, week_number as int),
                );
            }
            if keep {
                let d = self.exercises[t].duplicate();
                proof {
                    assert(d@ == old(self)@[t as int]);
                    assert(models_of(kept@).push(d@) =~= models_of(kept@.push(d)));
                }
                kept.push(d);
            }
            t += 1;
        }
        proof {
            assert(old(self)@.take(n as int) =~= old(self)@);
        }
        // Append the incoming records, stamped with the course and week.
        let ghost kept_part = models_of(kept@);
        let mut w: usize = 0;
        proof {
            assert(models_of(items@.take(0)).map_values(
                |mm: RecModel| with_week(mm, course@, week_number as int),
            ) =~= Seq::<RecModel>::empty());
            assert(models_of(kept@) =~= kept_part + models_of(items@.take(0)).map_values(
                |mm: RecModel| with_week(mm, course@, week_number as int),
            ));
        }
        while w < m
            invariant
                m == items@.len(),
                0 <= w <= m,
                self@ == old(self)@,
                models_of(kept@) == kept_part + models_of(items@.take(w as int)).map_values(
                    |mm: RecModel| with_week(mm, course@, week_number as int),
                ),
            decreases m - w,
        {
            let mut d = items[w].duplicate();
            d.course = course.clone();
            d.week = week_number;
            proof {
                assert(d@ == with_week(models_of(items@)[w as int], course@, week_number as int));
                assert(models_of(items@.take(w + 1)) =~= models_of(items@.take(w as int)).push(
                    models_of(items@)[w as int],
                ));
                assert(models_of(items@.take(w + 1)).map_values(
                    |mm: RecModel| with_week(mm, course@, week_number as int),
                ) =~= models_of(items@.take(w as int)).map_values(
                    |mm: RecModel| with_week(mm, course@, week_number as int),
                ).push(with_week(models_of(items@)[w as int], course@, week_number as int)));
                assert(models_of(kept@).push(d@) =~= models_of(kept@.push(d)));
                assert(kept_part + models_of(items@.take(w as int)).map_values(
                    |mm: RecModel| with_week(mm, course@, week_number as int),
                ).push(d@) =~= (kept_part + models_of(items@.take(w as int)).map_values(
                    |mm: RecModel| with_week(mm, course@, week_number as int),
                )).push(d@));
            }
            kept.push(d);
            w += 1;
        }
        self.exercises = kept;
        proof {
            assert(items@.take(m as int) =~= items@);
            let smods = models_of(items@).map_values(
                |mm: RecModel| with_week(mm, course@, week_number as int),
            );
            assert(models_of(items@.take(m as int)) =~= models_of(items@));
            assert(self@ == kept_part + smods);
            // Well-formedness of the result.
            lemma_distinct_ids_filter(
                old(self)@,
                |mm: RecModel| !in_week(mm, course@, week_number as int),
            );
            lemma_filter_membership(
                old(self)@,
                |mm: RecModel| !in_week(mm, course@, week_number as int),
            );
            assert forall|i2: int, j2: int| 0 <= i2 < j2 < smods.len() implies (
            #[trigger] smods[i2]).id != (#[trigger] smods[j2]).id by {
                assert(smods[i2] == with_week(models_of(items@)[i2], course@, week_number as int));
                assert(smods[j2] == with_week(models_of(items@)[j2], course@, week_number as int));
            }
            assert forall|i2: int, j2: int|
                0 <= i2 < kept_part.len() && 0 <= j2 < smods.len() implies (
            #[trigger] kept_part[i2]).id != (#[trigger] smods[j2]).id by {
                assert(kept_part.contains(kept_part[i2]));
                let b = choose|b: int|
                    0 <= b < old(self)@.len() && old(self)@[b] == kept_part[i2] && (!in_week(
                        kept_part[i2],
                        course@,
                        week_number as int,
                    ));
                assert(smods[j2] == with_week(models_of(items@)[j2], course@, week_number as int));
                assert(models_of(items@)[j2].id != old(self)@[b].id);
            }
            lemma_distinct_ids_concat(kept_part, smods);
        }
        Ok(())
    }

    /// Whether any record references the given asset path.
    #[verifier::loop_isolation(false)]
    pub fn references(&self, p: &String) -> (r: bool)
        ensures
            r == refs_of(self@).contains(p@),
    {
        let n = self.exercises.len();
        let mut i: usize = 0;
        while i < n
            invariant
                n == self.exercises@.len(),
                0 <= i <= n,
                forall|k: int| 0 <= k < i ==> !rec_refs(#[trigger] self@[k]).contains(p@),
            decreases n - i,
        {
            match &self.exercises[i].image_path {
                Some(q) => {
                    if *q == *p {
                        proof {
                            assert(rec_refs(self@[i as int]).contains(p@));
                        }
                        return true;
                    }
                },
                None => {},
            }
            match &self.exercises[i].page_image_path {
                Some(q) => {
                    if *q == *p {
                        proof {
                            assert(rec_refs(self@[i as int]).contains(p@));
                        }
                        return true;
                    }
                },
                None => {},
            }
            proof {
                assert(!rec_refs(self@[i as int]).contains(p@));
            }
            i += 1;
        }
        false
    }

    /// Removes every record the selector matches and reports the asset
    /// references that no remaining record still uses.
    #[verifier::loop_isolation(false)]
    fn remove_where(&mut self, sel: &Selector) -> (orphans: Vec<String>)
        requires
            old(self).wf(),
        ensures
            final(self).wf(),
            final(self)@ == old(self)@.filter(|m: RecModel| !sel_matches(sel@, m)),
            views_of(orphans@).to_set() == refs_of(old(self)@).difference(refs_of(final(self)@)),
    {
        let n = self.exercises.len();
        let mut kept: Vec<ExerciseRecord> = Vec::new();
        let mut dropped_refs: Vec<String> = Vec::new();
        let mut i: usize = 0;
        proof {
            assert(old(self)@.take(0).filter(|m: RecModel| !sel_matches(sel@, m)) =~= Seq::<
                RecModel,
            >::empty());
            assert(old(self)@.take(0).filter(|m: RecModel| sel_matches(sel@, m)) =~= Seq::<
                RecModel,
            >::empty());
            assert(models_of(kept@) =~= Seq::<RecModel>::empty());
            assert(views_of(dropped_refs@).to_set() =~= refs_of(
                old(self)@.take(0).filter(|m: RecModel| sel_matches(sel@, m)),
            ));
        }
        while i < n
            invariant
                n == self.exercises@.len(),
                self@ == old(self)@,
                0 <= i <= n,
                models_of(kept@) == old(self)@.take(i as int).filter(
                    |m: RecModel| !sel_matches(sel@, m),
                ),
                views_of(dropped_refs@).to_set() == refs_of(
                    old(self)@.take(i as int).filter(|m: RecModel| sel_matches(sel@, m)),
                ),
            decreases n - i,
        {
            let hit = match sel {
                Selector::ById(id) => self.exercises[i].id == *id,
                Selector::ByWeek(cn, wn) => self.exercises[i].course == *cn && self.exercises[i].week
                    == *wn,
                Selector::ByCourse(cn) => self.exercises[i].course == *cn,
            };
            proof {
                assert(hit == sel_matches(sel@, old(self)@[i as int]));
                assert(old(self)@.take(i + 1) =~= old(self)@.take(i as int).push(
                    old(self)@[i as int],
                ));
                lemma_filter_push(
                    old(self)@.take(i as int),
                    old(self)@[i as int],
                    |m: RecModel| !sel_matches(sel@, m),
                );
                lemma_filter_push(
                    old(self)@.take(i as int),
                    old(self)@[i as int],
                    |m: RecModel| sel_matches(sel@, m),
                );
            }
            if !hit {
                let d = self.exercises[i].duplicate();
                proof {
                    assert(d@ == old(self)@[i as int]);
                    assert(models_of(kept@).push(d@) =~= models_of(kept@.push(d)));
                }
                kept.push(d);
            } else {
                proof {
                    lemma_refs_push(
                        old(self)@.take(i as int).filter(|m: RecModel| sel_matches(sel@, m)),
                        old(self)@[i as int],
                    );
                }
                let ghost before = views_of(dropped_refs@).to_set();
                match &self.exercises[i].image_path {
                    Some(q) => {
                        let c = q.clone();
                        proof {
                            assert(views_of(dropped_refs@).to_set().insert(c@) =~= views_of(
                                dropped_refs@.push(c),
                            ).to_set()) by {
                                assert(views_of(dropped_refs@.push(c)) =~= views_of(
                                    dropped_refs@,
                                ).push(c@));
                                lemma_to_set_push(views_of(dropped_refs@), c@);
                            }
                        }
                        dropped_refs.push(c);
                    },
                    None => {},
                }
                match &self.exercises[i].page_image_path {
                    Some(q) => {
                        let c = q.clone();
                        proof {
                            assert(views_of(dropped_refs@).to_set().insert(c@) =~= views_of(
                                dropped_refs@.push(c),
                            ).to_set()) by {
                                assert(views_of(dropped_refs@.push(c)) =~= views_of(
                                    dropped_refs@,
                                ).push(c@));
                                lemma_to_set_push(views_of(dropped_refs@), c@);
                            }
                        }
                        dropped_refs.push(c);
                    },
                    None => {},
                }
                proof {
                    assert(views_of(dropped_refs@).to_set() =~= before.union(
                        rec_refs(old(self)@[i as int]),
                    ));
                }
            }
            i += 1;
        }
        proof {
            assert(old(self)@.take(n as int) =~= old(self)@);
        }
        self.exercises = kept;
        let ghost kept_model = self@;
        let ghost dropped_model = old(self)@.filter(|m: RecModel| sel_matches(sel@, m));
        proof {
            lemma_distinct_ids_filter(old(self)@, |m: RecModel| !sel_matches(sel@, m));
        }
        let k = dropped_refs.len();
        let mut j: usize = 0;
        let mut orphans: Vec<String> = Vec::new();
        proof {
            assert(views_of(dropped_refs@.take(0)).to_set() =~= Set::<Seq<char>>::empty());
            assert(views_of(orphans@).to_set() =~= views_of(dropped_refs@.take(0)).to_set().difference(
                refs_of(kept_model),
            ));
        }
        while j < k
            invariant
                k == dropped_refs@.len(),
                0 <= j <= k,
                self@ == kept_model,
                views_of(orphans@).to_set() == views_of(dropped_refs@.take(j as int)).to_set().difference(
                    refs_of(kept_model),
                ),
            decreases k - j,
        {
            let used = self.references(&dropped_refs[j]);
            proof {
                assert(dropped_refs@.take(j + 1) =~= dropped_refs@.take(j as int).push(
                    dropped_refs@[j as int],
                ));
                assert(views_of(dropped_refs@.take(j + 1)) =~= views_of(
                    dropped_refs@.take(j as int),
                ).push(dropped_refs@[j as int]@));
                lemma_to_set_push(views_of(dropped_refs@.take(j as int)), dropped_refs@[j as int]@);
            }
            if !used {
                let c = dropped_refs[j].clone();
                proof {
                    assert(views_of(orphans@).to_set().insert(c@) =~= views_of(
                        orphans@.push(c),
                    ).to_set()) by {
                        assert(views_of(orphans@.push(c)) =~= views_of(orphans@).push(c@));
                        lemma_to_set_push(views_of(orphans@), c@);
                    }
                    assert(views_of(orphans@.push(c)).to_set() =~= views_of(
                        dropped_refs@.take(j + 1),
                    ).to_set().difference(refs_of(kept_model)));
                }
                orphans.push(c);
            } else {
                proof {
                    assert(views_of(dropped_refs@.take(j + 1)).to_set().difference(
                        refs_of(kept_model),
                    ) =~= views_of(dropped_refs@.take(j as int)).to_set().difference(
                        refs_of(kept_model),
                    ));
                }
            }
            j += 1;
        }
        proof {
            assert(dropped_refs@.take(k as int) =~= dropped_refs@);
            lemma_refs_partition(
                old(self)@,
                |m: RecModel| !sel_matches(sel@, m),
                |m: RecModel| sel_matches(sel@, m),
            );
            assert(views_of(dropped_refs@).to_set() == refs_of(dropped_model));
            assert(views_of(orphans@).to_set() =~= refs_of(old(self)@).difference(
                refs_of(kept_model),
            ));
        }
        orphans
    }

    /// Deletes one exercise by id and reports the asset references no
    /// remaining record still uses.
    pub fn delete_exercise(&mut self, id: &String) -> (orphans: Vec<String>)
        requires
            old(self).wf(),
        ensures
            final(self).wf(),
            final(self)@ == sans_id(old(self)@, id@),
            views_of(orphans@).to_set() == refs_of(old(self)@).difference(refs_of(final(self)@)),
    {
        let sel = Selector::ById(id.clone());
        let orphans = self.remove_where(&sel);
        proof {
            lemma_filter_congruent(
                old(self)@,
                |m: RecModel| !sel_matches(sel@, m),
                |m: RecModel| m.id != id@,
            );
        }
        orphans
    }

    /// Deletes every exercise of one week and reports the asset
    /// references no remaining record still uses.
    pub fn delete_week(&mut self, course: &String, week_number: i64) -> (orphans: Vec<String>)
        requires
            old(self).wf(),
        ensures
            final(self).wf(),
            final(self)@ == sans_week(old(self)@, course@, week_number as int),
            views_of(orphans@).to_set() == refs_of(old(self)@).difference(refs_of(final(self)@)),
    {
        let sel = Selector::ByWeek(course.clone(), week_number);
        let orphans = self.remove_where(&sel);
        proof {
            lemma_filter_congruent(
                old(self)@,
                |m: RecModel| !sel_matches(sel@, m),
                |m: RecModel| !in_week(m, course@, week_number as int),
            );
        }
        orphans
    }

    /// Deletes a course with every week and exercise under it and
    /// reports the asset references no remaining record still uses.
    pub fn delete_course(&mut self, course: &String) -> (orphans: Vec<String>)
        requires
            old(self).wf(),
        ensures
            final(self).wf(),
            final(self)@ == sans_course(old(self)@, course@),
            views_of(orphans@).to_set() == refs_of(old(self)@).difference(refs_of(final(self)@)),
    {
        let sel = Selector::ByCourse(course.clone());
        let orphans = self.remove_where(&sel);
        proof {
            lemma_filter_congruent(
                old(self)@,
                |m: RecModel| !sel_matches(sel@, m),
                |m: RecModel| m.course != course@,
            );
        }
        orphans
    }

    /// Renames a course on every record under it.  The rename is
    /// rejected as an integrity violation when another course already
    /// bears the new name; a rejected rename changes nothing.
    #[verifier::loop_isolation(false)]
    pub fn rename_course(&mut self, old_name: &String, new_name: &String) -> (r: Result<
        (),
        StoreError,
    >)
        requires
            old(self).wf(),
        ensures
            final(self).wf(),
            r is Ok <==> (new_name@ == old_name@ || !has_course(old(self)@, new_name@)),
            r is Ok ==> final(self)@ == renamed(old(self)@, old_name@, new_name@),
            r is Err ==> final(self)@ == old(self)@ && r == Err::<(), StoreError>(
                StoreError::IntegrityViolation,
            ),
    {
        if !(*new_name == *old_name) {
            if self.has_course_exec(new_name) {
                return Err(StoreError::IntegrityViolation);
            }
        }
        let n = self.exercises.len();
        let mut out: Vec<ExerciseRecord> = Vec::new();
        let mut i: usize = 0;
        while i < n
            invariant
                n == self.exercises@.len(),
                self@ == old(self)@,
                0 <= i <= n,
                out@.len() == i,
                forall|k: int|
                    0 <= k < i ==> #[trigger] models_of(out@)[k] == renamed(
                        old(self)@,
                        old_name@,
                        new_name@,
                    )[k],
            decreases n - i,
        {
            let mut d = self.exercises[i].duplicate();
            if d.course == *old_name {
                d.course = new_name.clone();
                proof {
                    assert(d@ == RecModel { course: new_name@, ..old(self)@[i as int] });
                }
            }
            proof {
                assert(models_of(out@.push(d)) =~= models_of(out@).push(d@));
            }
            out.push(d);
            i += 1;
        }
        let ghost outm = models_of(out@);
        proof {
            assert(outm =~= renamed(old(self)@, old_name@, new_name@));
        }
        self.exercises = out;
        proof {
            assert(self@ == outm);
            let rn = renamed(old(self)@, old_name@, new_name@);
            assert forall|a: int, b: int| 0 <= a < b < rn.len() implies (#[trigger] rn[a]).id != (
            #[trigger] rn[b]).id by {
                assert(old(self)@[a].id == rn[a].id);
                assert(old(self)@[b].id == rn[b].id);
            }
            assert(distinct_ids(self@));
        }
        Ok(())
    }

    /// Every stored record, in store order.
    #[verifier::loop_isolation(false)]
    pub fn list_exercises(&self) -> (r: Vec<ExerciseRecord>)
        ensures
            models_of(r@) == self@,
    {
        let n = self.exercises.len();
        let mut r: Vec<ExerciseRecord> = Vec::new();
        let mut i: usize = 0;
        while i < n
            invariant
                n == self.exercises@.len(),
                0 <= i <= n,
                r@.len() == i,
                forall|k: int| 0 <= k < i ==> #[trigger] models_of(r@)[k] == self@[k],
            decreases n - i,
        {
            let d = self.exercises[i].duplicate();
            proof {
                assert(models_of(r@.push(d)) =~= models_of(r@).push(d@));
            }
            r.push(d);
            i += 1;
        }
        proof {
            assert(models_of(r@) =~= self@);
        }
        r
    }

    /// Rewrites the name and tags of the exercise with the given id,
    /// leaving every other field and every other record unchanged.  A
    /// store without that id is left as it is.
    #[verifier::loop_isolation(false)]
    pub fn update_exercise(&mut self, id: &String, name: &String, tags: &Vec<String>)
        requires
            old(self).wf(),
        ensures
            final(self).wf(),
            final(self)@ == retitled(old(self)@, id@, name@, views_of(tags@)),
    {
        let n = self.exercises.len();
        let mut out: Vec<ExerciseRecord> = Vec::new();
        let mut i: usize = 0;
        while i < n
            invariant
                n == self.exercises@.len(),
                self@ == old(self)@,
                0 <= i <= n,
                out@.len() == i,
                forall|k: int|
                    0 <= k < i ==> #[trigger] models_of(out@)[k] == retitled(
                        old(self)@,
                        id@,
                        name@,
                        views_of(tags@),
                    )[k],
            decreases n - i,
        {
            let mut d = self.exercises[i].duplicate();
            if d.id == *id {
                d.name = name.clone();
                d.tags = dup_strings(tags);
                proof {
                    assert(d@ == RecModel {
                        name: name@,
                        tags: views_of(tags@),
                        ..old(self)@[i as int]
                    });
                }
            }
            proof {
                assert(models_of(out@.push(d)) =~= models_of(out@).push(d@));
            }
            out.push(d);
            i += 1;
        }
        let ghost outm = models_of(out@);
        proof {
            assert(outm =~= retitled(old(self)@, id@, name@, views_of(tags@)));
        }
        self.exercises = out;
        proof {
            assert(self@ == outm);
            let rn = retitled(old(self)@, id@, name@, views_of(tags@));
            assert forall|a: int, b: int| 0 <= a < b < rn.len() implies (#[trigger] rn[a]).id != (
            #[trigger] rn[b]).id by {
                assert(old(self)@[a].id == rn[a].id);
                assert(old(self)@[b].id == rn[b].id);
            }
            assert(distinct_ids(self@));
        }
    }

    /// Looks up one exercise by id.
    #[verifier::loop_isolation(false)]
    pub fn get_exercise(&self, id: &String) -> (r: Option<ExerciseRecord>)
        ensures
            r is Some <==> exists|i: int| 0 <= i < self@.len() && (#[trigger] self@[i]).id == id@,
            match r {
                Some(e) => self@.contains(e@) && e@.id == id@,
                None => true,
            },
    {
        let n = self.exercises.len();
        let mut i: usize = 0;
        while i < n
            invariant
                n == self.exercises@.len(),
                0 <= i <= n,
                forall|k: int| 0 <= k < i ==> (#[trigger] self@[k]).id != id@,
            decreases n - i,
        {
            if self.exercises[i].id == *id {
                let e = self.exercises[i].duplicate();
                proof {
                    assert(self@[i as int] == e@);
                }
                return Some(e);
            }
            i += 1;
        }
        None
    }

    fn week_numbers(&self, course: &String) -> (r: Vec<i64>)
        ensures
            forall|a: int, b: int| 0 <= a < b < r@.len() ==> r@[a] < r@[b],
            forall|k: int| 0 <= k < r@.len() ==> has_week(self@, course@, r@[k] as int),
            forall|w: int|
                #[trigger] has_week(self@, course@, w) ==> exists|k: int|
                    0 <= k < r@.len() && r@[k] == w,
    {
        let n = self.exercises.len();
        let mut r: Vec<i64> = Vec::new();
        let mut i: usize = 0;
        while i < n
            invariant
                n == self.exercises@.len(),
                0 <= i <= n,
                forall|a: int, b: int| 0 <= a < b < r@.len() ==> r@[a] < r@[b],
                forall|k: int|
                    0 <= k < r@.len() ==> exists|t: int|
                        0 <= t < i && in_week(#[trigger] self@[t], course@, #[trigger] r@[k] as int),
                forall|t: int|
                    0 <= t < i && (#[trigger] self@[t]).course == course@ ==> r@.contains(
                        self.exercises@[t].week,
                    ),
            decreases n - i,
        {
            let hit = self.exercises[i].course == *course;
            proof {
                assert(self@[i as int].course == self.exercises@[i as int].course@);
                assert(self@[i as int].week == self.exercises@[i as int].week as int);
            }
            if hit {
                let r2 = insert_sorted_i64(&r, self.exercises[i].week);
                proof {
                    assert(in_week(self@[i as int], course@, self.exercises@[i as int].week as int));
                    assert forall|k: int| 0 <= k < r2@.len() implies exists|t: int|
                        0 <= t < i + 1 && in_week(#[trigger] self@[t], course@, #[trigger] r2@[k] as int) by {
                        assert(r2@.contains(r2@[k]));
                        if r@.contains(r2@[k]) {
                            let k0 = choose|k0: int| 0 <= k0 < r@.len() && r@[k0] == r2@[k];
                            let t = choose|t: int|
                                0 <= t < i && in_week(#[trigger] self@[t], course@, r@[k0] as int);
                            assert(in_week(self@[t], course@, r2@[k] as int));
                        } else {
                            assert(r2@[k] == self.exercises@[i as int].week);
                            assert(in_week(self@[i as int], course@, r2@[k] as int));
                        }
                    }
                }
                r = r2;
            }
            i += 1;
        }
        proof {
            assert forall|w: int| #[trigger] has_week(self@, course@, w) implies exists|k: int|
                0 <= k < r@.len() && r@[k] == w by {
                let t = choose|t: int| 0 <= t < self@.len() && in_week(#[trigger] self@[t], course@, w);
                assert(self@[t].week == self.exercises@[t].week as int);
                assert(r@.contains(self.exercises@[t].week));
                let k = choose|k: int| 0 <= k < r@.len() && r@[k] == self.exercises@[t].week;
                assert(r@[k] == w);
            }
        }
        r
    }

    fn week_summaries(&self, course: &String, week_number: i64) -> (ds: Vec<ExerciseData>)
        ensures
            summaries_ok(ds@, week_recs(self@, course@, week_number as int)),
    {
        let n = self.exercises.len();
        let mut ds: Vec<ExerciseData> = Vec::new();
        let mut i: usize = 0;
        proof {
            assert(self@.take(0).filter(|m: RecModel| in_week(m, course@, week_number as int))
                =~= Seq::<RecModel>::empty());
        }
        while i < n
            invariant
                n == self.exercises@.len(),
                0 <= i <= n,
                summaries_ok(
                    ds@,
                    self@.take(i as int).filter(
                        |m: RecModel| in_week(m, course@, week_number as int),
                    ),
                ),
            decreases n - i,
        {
            let hit = self.exercises[i].course == *course && self.exercises[i].week == week_number;
            proof {
                assert(hit == in_week(self@[i as int], course@, week_number as int));
                assert(self@.take(i + 1) =~= self@.take(i as int).push(self@[i as int]));
                lemma_filter_push(
                    self@.take(i as int),
                    self@[i as int],
                    |m: RecModel| in_week(m, course@, week_number as int),
                );
            }
            if hit {
                let d = ExerciseData {
                    id: Some(self.exercises[i].id.clone()),
                    name: self.exercises[i].name.clone(),
                    tags: dup_strings(&self.exercises[i].tags),
                    image: dup_opt_string(&self.exercises[i].image_path),
                };
                proof {
                    assert(summary_ok(d, self@[i as int]));
                }
                ds.push(d);
            }
            i += 1;
        }
        proof {
            assert(self@.take(n as int) =~= self@);
        }
        ds
    }

    /// The weeks and exercises of one course, weeks in ascending
    /// order; absent when the store has no record under the course.
    #[verifier::loop_isolation(false)]
    pub fn get_course(&self, course: &String) -> (r: Option<CourseData>)
        ensures
            r is Some <==> has_course(self@, course@),
            match r {
                Some(cd) => course_data_ok(self@, course@, cd),
                None => true,
            },
    {
        let wnums = self.week_numbers(course);
        if wnums.len() == 0 {
            proof {
                assert(!has_course(self@, course@)) by {
                    if has_course(self@, course@) {
                        let t = choose|t: int|
                            0 <= t < self@.len() && (#[trigger] self@[t]).course == course@;
                        assert(in_week(self@[t], course@, self@[t].week));
                        assert(has_week(self@, course@, self@[t].week));
                    }
                }
            }
            return None;
        }
        let wn = wnums.len();
        let mut entries: Vec<WeekEntry> = Vec::new();
        let mut k: usize = 0;
        while k < wn
            invariant
                wn == wnums@.len(),
                0 <= k <= wn,
                entries@.len() == k,
                forall|t: int|
                    0 <= t < k ==> (#[trigger] entries@[t]).week_number == wnums@[t],
                forall|t: int|
                    0 <= t < k ==> has_week(
                        self@,
                        course@,
                        (#[trigger] entries@[t]).week_number as int,
                    ) && week_entry_ok(self@, course@, entries@[t]),
            decreases wn - k,
        {
            let num = wnums[k];
            let label = week_label(num);
            let data = WeekData { exercises: self.week_summaries(course, num) };
            let we = WeekEntry { label, week_number: num, data };
            proof {
                assert(week_entry_ok(self@, course@, we));
            }
            entries.push(we);
            k += 1;
        }
        proof {
            assert(has_course(self@, course@)) by {
                assert(has_week(self@, course@, wnums@[0] as int));
                let t = choose|t: int|
                    0 <= t < self@.len() && in_week(#[trigger] self@[t], course@, wnums@[0] as int);
                assert(self@[t].course == course@);
            }
        }
        let out = CourseData { weeks: entries };
        proof {
            assert forall|w: int| #[trigger] has_week(self@, course@, w) implies exists|k2: int|
                0 <= k2 < out.weeks@.len() && (#[trigger] out.weeks@[k2]).week_number == w by {
                let k0 = choose|k0: int| 0 <= k0 < wnums@.len() && wnums@[k0] == w;
                assert(out.weeks@[k0].week_number == w);
            }
        }
        Some(out)
    }

    /// The set of course names mentioned by the records.
    fn course_names(&self) -> (r: Vec<String>)
        ensures
            strictly_sorted_strs(views_of(r@)),
            forall|e: Seq<char>| views_of(r@).to_set().contains(e) <==> has_course(self@, e),
    {
        let n = self.exercises.len();
        let mut r: Vec<String> = Vec::new();
        let mut i: usize = 0;
        proof {
            assert(views_of(r@).to_set() =~= Set::<Seq<char>>::empty());
        }
        while i < n
            invariant
                n == self.exercises@.len(),
                0 <= i <= n,
                strictly_sorted_strs(views_of(r@)),
                forall|e: Seq<char>|
                    views_of(r@).to_set().contains(e) <==> has_course(self@.take(i as int), e),
            decreases n - i,
        {
            let r2 = insert_sorted_unique(&r, &self.exercises[i].course);
            proof {
                assert(self@.take(i + 1) =~= self@.take(i as int).push(self@[i as int]));
                assert forall|e: Seq<char>|
                    views_of(r2@).to_set().contains(e) <==> has_course(self@.take(i + 1), e) by {
                    if has_course(self@.take(i + 1), e) {
                        let t = choose|t: int|
                            0 <= t < self@.take(i + 1).len() && (#[trigger] self@.take(
                                i + 1,
                            )[t]).course == e;
                        if t < i {
                            assert(has_course(self@.take(i as int), e)) by {
                                assert(self@.take(i as int)[t].course == e);
                            }
                        } else {
                            assert(e == self@[i as int].course);
                        }
                    }
                    if has_course(self@.take(i as int), e) {
                        let t = choose|t: int|
                            0 <= t < self@.take(i as int).len() && (#[trigger] self@.take(
                                i as int,
                            )[t]).course == e;
                        assert(self@.take(i + 1)[t].course == e);
                        assert(has_course(self@.take(i + 1), e));
                    }
                    if e == self@[i as int].course {
                        assert(self@.take(i + 1)[i as int].course == e);
                        assert(has_course(self@.take(i + 1), e));
                    }
                    assert(self@[i as int].course == self.exercises@[i as int].course@);
                }
            }
            r = r2;
            i += 1;
        }
        proof {
            assert(self@.take(n as int) =~= self@);
        }
        r
    }

    /// The full hierarchy: every course with its weeks and exercises,
    /// courses in ascending name order.
    #[verifier::loop_isolation(false)]
    pub fn list_all(&self) -> (r: DatabaseState)
        ensures
            db_state_ok(self@, r),
    {
        let names = self.course_names();
        let n = names.len();
        let mut entries: Vec<CourseEntry> = Vec::new();
        let mut i: usize = 0;
        while i < n
            invariant
                n == names@.len(),
                0 <= i <= n,
                entries@.len() == i,
                forall|k: int| 0 <= k < i ==> (#[trigger] entries@[k]).name@ == names@[k]@,
                forall|k: int|
                    0 <= k < i ==> has_course(self@, (#[trigger] entries@[k]).name@)
                        && course_data_ok(self@, entries@[k].name@, entries@[k].data),
            decreases n - i,
        {
            proof {
                assert(views_of(names@)[i as int] == names@[i as int]@);
                assert(views_of(names@).contains(names@[i as int]@));
                assert(views_of(names@).to_set().contains(names@[i as int]@));
                assert(has_course(self@, names@[i as int]@));
            }
            match self.get_course(&names[i]) {
                Some(cd) => {
                    let ce = CourseEntry { name: names[i].clone(), data: cd };
                    entries.push(ce);
                },
                None => {
                    proof {
                        assert(false);
                    }
                },
            }
            i += 1;
        }
        let out = DatabaseState { courses: entries };
        proof {
            assert forall|cn: Seq<char>| #[trigger] has_course(self@, cn) implies exists|k: int|
                0 <= k < out.courses@.len() && (#[trigger] out.courses@[k]).name@ == cn by {
                assert(views_of(names@).to_set().contains(cn));
                let k = choose|k: int| 0 <= k < views_of(names@).len() && views_of(names@)[k] == cn;
                assert(out.courses@[k].name@ == cn);
            }
            assert forall|a: int, b: int| 0 <= a < b < out.courses@.len() implies crate::text::str_lt(
                (#[trigger] out.courses@[a]).name@,
                (#[trigger] out.courses@[b]).name@,
            ) by {
                assert(views_of(names@)[a] == names@[a]@);
                assert(views_of(names@)[b] == names@[b]@);
            }
        }
        out
    }

    /// The exercises whose name contains the query, case-insensitively
    /// for ASCII characters, ordered by name ascending; records of
    /// equal name keep their store order.
    #[verifier::loop_isolation(false)]
    pub fn search(&self, query: &String) -> (r: Vec<ExerciseInfo>)
        ensures
            infos_ok(r@, sort_by_name(search_results(self@, query@))),
    {
        let n = self.exercises.len();
        let mut r: Vec<ExerciseInfo> = Vec::new();
        let mut i: usize = 0;
        proof {
            assert(self@.take(0).filter(|m: RecModel| contains_ci(m.name, query@)) =~= Seq::<
                RecModel,
            >::empty());
        }
        while i < n
            invariant
                n == self.exercises@.len(),
                0 <= i <= n,
                infos_ok(
                    r@,
                    sort_by_name(
                        self@.take(i as int).filter(|m: RecModel| contains_ci(m.name, query@)),
                    ),
                ),
            decreases n - i,
        {
            let hit = contains_ci_exec(&self.exercises[i].name, query);
            proof {
                assert(hit == contains_ci(self@[i as int].name, query@));
                assert(self@.take(i + 1) =~= self@.take(i as int).push(self@[i as int]));
                lemma_filter_push(
                    self@.take(i as int),
                    self@[i as int],
                    |m: RecModel| contains_ci(m.name, query@),
                );
            }
            if hit {
                let d = ExerciseInfo {
                    id: self.exercises[i].id.clone(),
                    name: self.exercises[i].name.clone(),
                    tags: dup_strings(&self.exercises[i].tags),
                    image_path: dup_opt_string(&self.exercises[i].image_path),
                };
                proof {
                    assert(info_ok(d, self@[i as int]));
                    let filtered = self@.take(i as int).filter(
                        |m: RecModel| contains_ci(m.name, query@),
                    );
                    assert(filtered.push(self@[i as int]).drop_last() =~= filtered);
                    assert(sort_by_name(filtered.push(self@[i as int])) == insert_by_name(
                        sort_by_name(filtered),
                        self@[i as int],
                    ));
                }
                r = insert_info_by_name(
                    r,
                    d,
                    Ghost(
                        sort_by_name(
                            self@.take(i as int).filter(
                                |m: RecModel| contains_ci(m.name, query@),
                            ),
                        ),
                    ),
                    Ghost(self@[i as int]),
                );
            }
            i += 1;
        }
        proof {
            assert(self@.take(n as int) =~= self@);
        }
        r
    }

    /// The exercises sharing at least one tag with the filter set,
    /// compared under Unicode case folding, in store order.
    #[verifier::loop_isolation(false)]
    pub fn filter_by_tags(&self, filter_tags: &Vec<String>) -> (r: Vec<ExerciseInfo>)
        ensures
            infos_ok(r@, tag_filter_results(self@, views_of(filter_tags@))),
    {
        let n = self.exercises.len();
        let mut r: Vec<ExerciseInfo> = Vec::new();
        let mut i: usize = 0;
        proof {
            assert(self@.take(0).filter(
                |m: RecModel| tag_match(m, views_of(filter_tags@)),
            ) =~= Seq::<RecModel>::empty());
        }
        while i < n
            invariant
                n == self.exercises@.len(),
                0 <= i <= n,
                infos_ok(
                    r@,
                    self@.take(i as int).filter(
                        |m: RecModel| tag_match(m, views_of(filter_tags@)),
                    ),
                ),
            decreases n - i,
        {
            let hit = tags_intersect(&self.exercises[i].tags, filter_tags);
            proof {
                assert(views_of(self.exercises@[i as int].tags@) == self@[i as int].tags);
                let ts = self.exercises@[i as int].tags@;
                if hit {
                    let (wi, wj) = choose|wi: int, wj: int|
                        0 <= wi < ts.len() && 0 <= wj < filter_tags@.len() && unicode_lower_of(
                            #[trigger] ts[wi]@,
                        ) == unicode_lower_of(#[trigger] filter_tags@[wj]@);
                    assert(self@[i as int].tags[wi] == ts[wi]@);
                    assert(views_of(filter_tags@)[wj] == filter_tags@[wj]@);
                    assert(unicode_lower_of(self@[i as int].tags[wi]) == unicode_lower_of(
                        views_of(filter_tags@)[wj],
                    ));
                    assert(tag_match(self@[i as int], views_of(filter_tags@)));
                }
                if tag_match(self@[i as int], views_of(filter_tags@)) {
                    let m = self@[i as int];
                    let (wi, wj) = choose|wi: int, wj: int|
                        0 <= wi < m.tags.len() && 0 <= wj < views_of(filter_tags@).len()
                            && unicode_lower_of(#[trigger] m.tags[wi]) == unicode_lower_of(
                            #[trigger] views_of(filter_tags@)[wj],
                        );
                    assert(ts[wi]@ == m.tags[wi]);
                    assert(filter_tags@[wj]@ == views_of(filter_tags@)[wj]);
                    assert(unicode_lower_of(ts[wi]@) == unicode_lower_of(filter_tags@[wj]@));
                    assert(hit);
                }
                assert(hit == tag_match(self@[i as int], views_of(filter_tags@)));
                assert(self@.take(i + 1) =~= self@.take(i as int).push(self@[i as int]));
                lemma_filter_push(
                    self@.take(i as int),
                    self@[i as int],
                    |m: RecModel| tag_match(m, views_of(filter_tags@)),
                );
            }
            if hit {
                let d = ExerciseInfo {
                    id: self.exercises[i].id.clone(),
                    name: self.exercises[i].name.clone(),
                    tags: dup_strings(&self.exercises[i].tags),
                    image_path: dup_opt_string(&self.exercises[i].image_path),
                };
                proof {
                    assert(info_ok(d, self@[i as int]));
                }
                r.push(d);
            }
            i += 1;
        }
        proof {
            assert(self@.take(n as int) =~= self@);
        }
        r
    }
}

/// Inserts a result row into a vector mirroring a name-ordered record
/// sequence, keeping the mirror exact.
#[verifier::loop_isolation(false)]
fn insert_info_by_name(
    v: Vec<ExerciseInfo>,
    x: ExerciseInfo,
    Ghost(ms): Ghost<Seq<RecModel>>,
    Ghost(m): Ghost<RecModel>,
) -> (r: Vec<ExerciseInfo>)
    requires
        infos_ok(v@, ms),
        info_ok(x, m),
    ensures
        infos_ok(r@, insert_by_name(ms, m)),
    decreases v@.len(),
{
    let len = v.len();
    if len == 0 {
        let mut r = v;
        r.push(x);
        proof {
            assert(insert_by_name(ms, m) =~= seq![m]);
        }
        return r;
    }
    let le = str_le_exec(&v[len - 1].name, &x.name);
    proof {
        assert(v@[len - 1].name@ == ms[len - 1].name);
        assert(ms.last() == ms[len - 1]);
        assert(le == str_le(ms.last().name, m.name));
    }
    if le {
        let mut r = v;
        r.push(x);
        proof {
            assert(insert_by_name(ms, m) == ms.push(m));
            assert(infos_ok(r@, ms.push(m)));
        }
        return r;
    }
    let mut v2 = v;
    let last = match v2.pop() {
        Some(e) => e,
        None => {
            proof {
                assert(false);
            }
            ExerciseInfo { id: String::new(), name: String::new(), tags: Vec::new(), image_path: None }
        },
    };
    proof {
        assert(infos_ok(v2@, ms.drop_last())) by {
            assert(v2@ =~= v@.drop_last());
            assert(forall|k: int|
                0 <= k < ms.drop_last().len() ==> ms.drop_last()[k] == ms[k] && v2@[k] == v@[k]);
        }
        assert(info_ok(last, ms.last()));
    }
    let r2 = insert_info_by_name(v2, x, Ghost(ms.drop_last()), Ghost(m));
    let mut r = r2;
    r.push(last);
    proof {
        assert(insert_by_name(ms, m) == insert_by_name(ms.drop_last(), m).push(ms.last()));
        assert(infos_ok(r@, insert_by_name(ms.drop_last(), m).push(ms.last())));
    }
    r
}

/// Whether two tags are equal under Unicode case folding.
fn tags_eq_folded(a: &String, b: &String) -> (r: bool)
    ensures
        r == (unicode_lower_of(a@) == unicode_lower_of(b@)),
{
    let la = unicode_lower(a);
    let lb = unicode_lower(b);
    la == lb
}

/// Whether two tag lists share an element under Unicode case folding.
#[verifier::loop_isolation(false)]
fn tags_intersect(a: &Vec<String>, b: &Vec<String>) -> (r: bool)
    ensures
        r == exists|i: int, j: int|
            0 <= i < a@.len() && 0 <= j < b@.len() && unicode_lower_of(#[trigger] a@[i]@)
                == unicode_lower_of(#[trigger] b@[j]@),
{
    let n = a.len();
    let m = b.len();
    let mut i: usize = 0;
    while i < n
        invariant
            n == a@.len(),
            m == b@.len(),
            0 <= i <= n,
            forall|i2: int, j2: int|
                0 <= i2 < i && 0 <= j2 < m ==> unicode_lower_of(#[trigger] a@[i2]@)
                    != unicode_lower_of(#[trigger] b@[j2]@),
        decreases n - i,
    {
        let mut j: usize = 0;
        while j < m
            invariant
                n == a@.len(),
                m == b@.len(),
                0 <= i < n,
                0 <= j <= m,
                forall|j2: int|
                    0 <= j2 < j ==> unicode_lower_of(a@[i as int]@) != unicode_lower_of(
                        #[trigger] b@[j2]@,
                    ),
            decreases m - j,
        {
            if tags_eq_folded(&a[i], &b[j]) {
                return true;
            }
            j += 1;
        }
        i += 1;
    }
    false
}

/// Ids stay unique when rows are filtered and a row whose id the filter
/// excluded is appended.
proof fn lemma_wf_after_filter_push(s: Seq<RecModel>, p: spec_fn(RecModel) -> bool, x: RecModel)
    requires
        distinct_ids(s),
        forall|m: RecModel| #[trigger] p(m) ==> m.id != x.id,
    ensures
        distinct_ids(s.filter(p).push(x)),
{
    let f = s.filter(p);
    lemma_filter_membership(s, p);
    assert forall|i: int, j: int| 0 <= i < j < f.push(x).len() implies (#[trigger] f.push(x)[i]).id
        != (#[trigger] f.push(x)[j]).id by {
        if j < f.len() {
            lemma_filter_distinct_positions(s, p, i, j);
        } else {
            assert(f.contains(f[i]));
            assert(p(f[i]));
        }
    }
}

/// Two distinct positions of a filtered sequence cannot hold the same
/// value taken from a single source position.
proof fn lemma_filter_distinct_positions<A>(s: Seq<A>, p: spec_fn(A) -> bool, i: int, j: int)
    requires
        0 <= i < j < s.filter(p).len(),
    ensures
        exists|a: int, b: int|
            0 <= a < b < s.len() && s[a] == s.filter(p)[i] && s[b] == s.filter(p)[j],
    decreases s.len(),
{
    reveal(Seq::filter);
    if s.len() > 0 {
        lemma_filter_push(s.drop_last(), s.last(), p);
        assert(s =~= s.drop_last().push(s.last()));
        let f = s.filter(p);
        let fd = s.drop_last().filter(p);
        if p(s.last()) && j == f.len() - 1 {
            if i < fd.len() {
                lemma_filter_source(s.drop_last(), p, i);
                let a = choose|a: int| 0 <= a < s.drop_last().len() && s.drop_last()[a] == fd[i];
                assert(s[a] == f[i]);
                assert(s[s.len() - 1] == f[j]);
            }
        } else {
            lemma_filter_distinct_positions(s.drop_last(), p, i, j);
            let (a, b) = choose|a: int, b: int|
                0 <= a < b < s.drop_last().len() && s.drop_last()[a] == fd[i] && s.drop_last()[b]
                    == fd[j];
            assert(s[a] == f[i] && s[b] == f[j]);
        }
    }
}

/// Every position of a filtered sequence comes from some source position.
proof fn lemma_filter_source<A>(s: Seq<A>, p: spec_fn(A) -> bool, i: int)
    requires
        0 <= i < s.filter(p).len(),
    ensures
        exists|a: int| 0 <= a < s.len() && s[a] == s.filter(p)[i],
    decreases s.len(),
{
    reveal(Seq::filter);
    if s.len() > 0 {
        lemma_filter_push(s.drop_last(), s.last(), p);
        assert(s =~= s.drop_last().push(s.last()));
        let f = s.filter(p);
        let fd = s.drop_last().filter(p);
        if p(s.last()) && i == f.len() - 1 {
            assert(s[s.len() - 1] == f[i]);
        } else {
            lemma_filter_source(s.drop_last(), p, i);
            let a = choose|a: int| 0 <= a < s.drop_last().len() && s.drop_last()[a] == fd[i];
            assert(s[a] == f[i]);
        }
    }
}

/// Law: replacing a week's exercise list is last-write-wins.  After
/// two replacements of the same week the store holds exactly what the
/// second replacement supplied for that week -- no duplicates and no
/// leftover records of the first write -- and every record outside the
/// week is exactly as it was at the start.
pub proof fn lemma_replace_is_last_write(
    s0: Seq<RecModel>,
    cn: Seq<char>,
    wn: int,
    items1: Seq<RecModel>,
    items2: Seq<RecModel>,
)
    ensures
        replace_result(replace_result(s0, cn, wn, items1), cn, wn, items2) == replace_result(
            s0,
            cn,
            wn,
            items2,
        ),
        week_recs(replace_result(replace_result(s0, cn, wn, items1), cn, wn, items2), cn, wn)
            == items2.map_values(|m: RecModel| with_week(m, cn, wn)),
        sans_week(replace_result(replace_result(s0, cn, wn, items1), cn, wn, items2), cn, wn)
            == sans_week(s0, cn, wn),
{
    let k = sans_week(s0, cn, wn);
    let m1 = items1.map_values(|m: RecModel| with_week(m, cn, wn));
    let m2 = items2.map_values(|m: RecModel| with_week(m, cn, wn));
    let s1 = replace_result(s0, cn, wn, items1);
    Seq::filter_distributes_over_add(k, m1, |m: RecModel| !in_week(m, cn, wn));
    Seq::filter_distributes_over_add(k, m2, |m: RecModel| !in_week(m, cn, wn));
    Seq::filter_distributes_over_add(k, m2, |m: RecModel| in_week(m, cn, wn));
    lemma_filter_membership(s0, |m: RecModel| !in_week(m, cn, wn));
    assert forall|i: int| 0 <= i < k.len() implies !in_week(#[trigger] k[i], cn, wn) by {
        assert(k.contains(k[i]));
    }
    lemma_filter_all(k, |m: RecModel| !in_week(m, cn, wn));
    lemma_filter_none(k, |m: RecModel| in_week(m, cn, wn));
    assert forall|i: int| 0 <= i < m1.len() implies in_week(#[trigger] m1[i], cn, wn) by {
        assert(m1[i] == with_week(items1[i], cn, wn));
    }
    lemma_filter_none(m1, |m: RecModel| !in_week(m, cn, wn));
    assert forall|i: int| 0 <= i < m2.len() implies in_week(#[trigger] m2[i], cn, wn) by {
        assert(m2[i] == with_week(items2[i], cn, wn));
    }
    lemma_filter_none(m2, |m: RecModel| !in_week(m, cn, wn));
    lemma_filter_all(m2, |m: RecModel| in_week(m, cn, wn));
    assert(sans_week(s1, cn, wn) =~= k);
    assert(replace_result(s1, cn, wn, items2) =~= replace_result(s0, cn, wn, items2));
    assert(week_recs(k + m2, cn, wn) =~= m2);
    assert(sans_week(k + m2, cn, wn) =~= k);
}

/// Law: deleting a course removes every week and every exercise under
/// it, and every asset reference of the removed records that no
/// remaining record still uses is reported as an orphan for deletion.
pub proof fn lemma_delete_course_cascade(s0: Seq<RecModel>, cn: Seq<char>, orphans: Set<Seq<char>>)
    requires
        orphans == refs_of(s0).difference(refs_of(sans_course(s0, cn))),
    ensures
        !has_course(sans_course(s0, cn), cn),
        forall|w: int| week_recs(sans_course(s0, cn), cn, w) == Seq::<RecModel>::empty(),
        forall|p: Seq<char>|
            refs_of(#[trigger] course_recs(s0, cn)).contains(p) && !refs_of(
                sans_course(s0, cn),
            ).contains(p) ==> orphans.contains(p),
{
    let kept = sans_course(s0, cn);
    lemma_filter_membership(s0, |m: RecModel| m.course != cn);
    assert forall|i: int| 0 <= i < kept.len() implies (#[trigger] kept[i]).course != cn by {
        assert(kept.contains(kept[i]));
    }
    assert(!has_course(kept, cn));
    assert forall|w: int| week_recs(kept, cn, w) == Seq::<RecModel>::empty() by {
        lemma_filter_none(kept, |m: RecModel| in_week(m, cn, w));
    }
    lemma_refs_partition(s0, |m: RecModel| m.course != cn, |m: RecModel| m.course == cn);
    assert forall|p: Seq<char>|
        refs_of(#[trigger] course_recs(s0, cn)).contains(p) && !refs_of(kept).contains(
            p,
        ) implies orphans.contains(p) by {
        assert(refs_of(s0).contains(p));
    }
}

/// Law: a record stored by an upsert comes back identical.  Any record
/// of the new store contents that bears the upserted id is the
/// upserted record itself, every field included -- in particular a
/// stored bounding box is retrieved with the same values.
pub proof fn lemma_upsert_round_trip(s0: Seq<RecModel>, rec: RecModel, e: RecModel)
    requires
        sans_id(s0, rec.id).push(rec).contains(e),
        e.id == rec.id,
    ensures
        e == rec,
{
    let f = sans_id(s0, rec.id);
    lemma_filter_membership(s0, |m: RecModel| m.id != rec.id);
    if f.contains(e) {
        assert(e.id != rec.id);
    } else {
        let i = choose|i: int| 0 <= i < f.push(rec).len() && f.push(rec)[i] == e;
        assert(i == f.len());
    }
}

} // verus!
