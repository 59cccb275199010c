//! Extractor post-processing.
//!
//! The network call to the external classification capability lives
//! outside this library; what is verified here is everything around
//! it: stripping the transport prefix from an inline image before
//! transmission, and turning each parsed candidate into a finished
//! record -- classification merged into the tags, the tag list
//! deduplicated and sorted, and a fresh identifier and timestamp
//! attached.

use vstd::prelude::*;
use crate::tags::{normalize_tags, strictly_sorted_strs, views_of};
use crate::foreign::{fresh_id, now_millis};
use crate::store::{opt_view, ExerciseRecord};
use crate::text::{contains_seq, match_at, find_substring};
use vstd::string::StrSliceExecFns;

verus! {

/// One exercise of a parsed whole-document response; by the response
/// schema the first tag is the classification.
pub struct Exercise {
    pub name: String,
    pub tags: Vec<String>,
}

/// A parsed whole-document response of the classification capability.
pub struct GeminiResponse {
    pub course_name: String,
    pub exercises: Vec<Exercise>,
}

/// One exercise candidate parsed from a per-page response.
pub struct PageCandidate {
    pub name: String,
    pub exercise_type: String,
    pub tags: Vec<String>,
}

/// A finished candidate: named, classified, tagged, stamped.
pub struct CandidateRecord {
    pub id: String,
    pub name: String,
    pub tags: Vec<String>,
    pub created_at: i64,
}

/// `t` is `s` with everything up to and including the first
/// `"base64,"` marker removed; `s` itself when no marker occurs.
pub open spec fn is_stripped(s: Seq<char>, t: Seq<char>) -> bool {
    if contains_seq(s, "base64,"@) {
        exists|i: int|
            #![trigger match_at(s, "base64,"@, i)]
            match_at(s, "base64,"@, i) && (forall|j: int| 0 <= j < i ==> !match_at(s, "base64,"@, j))
                && t == s.skip(i + 7)
    } else {
        t == s
    }
}

/// The stripped form of a string is unique.
pub proof fn lemma_stripped_unique(s: Seq<char>, t1: Seq<char>, t2: Seq<char>)
    requires
        is_stripped(s, t1),
        is_stripped(s, t2),
    ensures
        t1 == t2,
{
    if contains_seq(s, "base64,"@) {
        let i1 = choose|i: int|
            #![trigger match_at(s, "base64,"@, i)]
            match_at(s, "base64,"@, i) && (forall|j: int| 0 <= j < i ==> !match_at(s, "base64,"@, j))
                && t1 == s.skip(i + 7);
        let i2 = choose|i: int|
            #![trigger match_at(s, "base64,"@, i)]
            match_at(s, "base64,"@, i) && (forall|j: int| 0 <= j < i ==> !match_at(s, "base64,"@, j))
                && t2 == s.skip(i + 7);
        assert(i1 == i2);
    }
}

/// Strips a transport-format prefix (anything up to and including the
/// first `"base64,"` marker) from an inline image payload; a payload
/// without the marker is returned unchanged.
pub fn strip_transport_prefix(s: &String) -> (r: String)
    ensures
        is_stripped(s@, r@),
{
    let marker_owned: String = marker_string();
    match find_substring(s, &marker_owned) {
        Some(i) => {
            proof {
                reveal_strlit("base64,");
                assert("base64,"@.len() == 7);
            }
            let n = s.as_str().unicode_len();
            let r = s.as_str().substring_char(i + 7, n);
            let out = r.to_owned();
            proof {
                assert(out@ =~= s@.skip(i + 7));
            }
            out
        },
        None => {
            let out = s.as_str().to_owned();
            out
        },
    }
}

fn marker_string() -> (r: String)
    ensures
        r@ == "base64,"@,
{
    let mut m = String::new();
    m.append("base64,");
    m
}

/// The finished record faithfully reflects the candidate: same name,
/// a 36-character identifier, and the candidate's tags merged with its
/// classification, deduplicated and sorted.
pub open spec fn finalized_ok(r: CandidateRecord, c: PageCandidate) -> bool {
    &&& r.name@ == c.name@
    &&& r.id@.len() == 36
    &&& strictly_sorted_strs(views_of(r.tags@))
    &&& views_of(r.tags@).to_set() == views_of(c.tags@).to_set().insert(c.exercise_type@)
}

/// Finishes one candidate: normalizes its tags and attaches a fresh
/// identifier and the current timestamp.
pub fn finalize_candidate(c: &PageCandidate) -> (r: CandidateRecord)
    ensures
        finalized_ok(r, *c),
{
    let id = fresh_id();
    let tags = normalize_tags(&c.exercise_type, &c.tags);
    let created_at = now_millis();
    CandidateRecord { id, name: c.name.clone(), tags, created_at }
}

/// Finishes every candidate of a page, in order.
#[verifier::loop_isolation(false)]
pub fn finalize_candidates(cs: &Vec<PageCandidate>) -> (r: Vec<CandidateRecord>)
    ensures
        r@.len() == cs@.len(),
        forall|k: int| 0 <= k < cs@.len() ==> finalized_ok(#[trigger] r@[k], cs@[k]),
{
    let n = cs.len();
    let mut r: Vec<CandidateRecord> = Vec::new();
    let mut i: usize = 0;
    while i < n
        invariant
            n == cs@.len(),
            0 <= i <= n,
            r@.len() == i,
            forall|k: int| 0 <= k < i ==> finalized_ok(#[trigger] r@[k], cs@[k]),
        decreases n - i,
    {
        let f = finalize_candidate(&cs[i]);
        r.push(f);
        i += 1;
    }
    r
}

/// The store record carries exactly the finished candidate's fields,
/// stamped with the given course, week and source page image; the
/// per-exercise fields that ingestion cannot know are empty.
pub open spec fn record_from_candidate_ok(
    r: ExerciseRecord,
    c: CandidateRecord,
    course: Seq<char>,
    week: int,
    page_image: Option<Seq<char>>,
) -> bool {
    &&& r@.id == c.id@
    &&& r@.name == c.name@
    &&& r@.tags == views_of(c.tags@)
    &&& r@.course == course
    &&& r@.week == week
    &&& r@.content is None
    &&& r@.notes is None
    &&& r@.image_path is None
    &&& r@.page_image_path == page_image
    &&& r@.bounding_box is None
    &&& r@.created_at == c.created_at as int
}

fn record_from_candidate(
    c: &CandidateRecord,
    course: &String,
    week: i64,
    page_image: &Option<String>,
) -> (r: ExerciseRecord)
    ensures
        record_from_candidate_ok(r, *c, course@, week as int, opt_view(*page_image)),
{
    let page_ref = match page_image {
        Some(p) => Some(p.clone()),
        None => None,
    };
    let mut tags: Vec<String> = Vec::new();
    let n = c.tags.len();
    let mut i: usize = 0;
    while i < n
        invariant
            n == c.tags@.len(),
            0 <= i <= n,
            tags@.len() == i,
            forall|k: int| 0 <= k < i ==> #[trigger] tags@[k]@ == c.tags@[k]@,
        decreases n - i,
    {
        tags.push(c.tags[i].clone());
        i += 1;
    }
    proof {
        assert(views_of(tags@) =~= views_of(c.tags@));
    }
    ExerciseRecord {
        id: c.id.clone(),
        name: c.name.clone(),
        tags,
        course: course.clone(),
        week,
        content: None,
        notes: None,
        image_path: None,
        page_image_path: page_ref,
        bounding_box: None,
        created_at: c.created_at,
    }
}

/// Shapes one page's finished candidates into store records for the
/// given course and week, each referencing the page's saved image.
#[verifier::loop_isolation(false)]
pub fn records_from_candidates(
    cs: &Vec<CandidateRecord>,
    course: &String,
    week: i64,
    page_image: &Option<String>,
) -> (r: Vec<ExerciseRecord>)
    ensures
        r@.len() == cs@.len(),
        forall|k: int|
            0 <= k < cs@.len() ==> record_from_candidate_ok(
                #[trigger] r@[k],
                cs@[k],
                course@,
                week as int,
                opt_view(*page_image),
            ),
{
    let n = cs.len();
    let mut r: Vec<ExerciseRecord> = Vec::new();
    let mut i: usize = 0;
    while i < n
        invariant
            n == cs@.len(),
            0 <= i <= n,
            r@.len() == i,
            forall|k: int|
                0 <= k < i ==> record_from_candidate_ok(
                    #[trigger] r@[k],
                    cs@[k],
                    course@,
                    week as int,
                    opt_view(*page_image),
                ),
        decreases n - i,
    {
        let rec = record_from_candidate(&cs[i], course, week, page_image);
        r.push(rec);
        i += 1;
    }
    r
}

} // verus!
