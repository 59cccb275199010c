//! Rasterizer page assembly.
//!
//! Rendering itself is done by external tools tried in priority order;
//! the caller probes the scratch directory for each page's file using
//! the candidate names given here (renderers differ in their numbering
//! and padding), and hands the bytes found -- or a gap -- to
//! [`assemble_pages`].  When every rendering strategy fails,
//! [`placeholder_pages`] produces one blank page per document page so
//! that consumers can still index pages one to N.

use vstd::prelude::*;
use crate::foreign::{b64_of, b64_encode, solid_png, solid_png_of};
use crate::numfmt::{dec_digits, dec_padded, u64_to_dec, u64_to_dec_padded};
use vstd::string::StringExecFns;

verus! {

/// A self-describing image payload: the PNG bytes, base64-embedded in
/// a data URL.
pub open spec fn data_url_of(payload: Seq<u8>) -> Seq<char> {
    "data:image/png;base64,"@ + b64_of(payload)
}

/// Wraps PNG bytes into a base64 data URL.
pub fn page_data_url(bytes: &Vec<u8>) -> (r: String)
    requires
        bytes@.len() <= usize::MAX / 2,
    ensures
        r@ == data_url_of(bytes@),
{
    let b64 = b64_encode(bytes);
    let mut s = String::new();
    s.append("data:image/png;base64,");
    s.append(b64.as_str());
    s
}

/// The candidate filenames under which a renderer may have stored the
/// given page, in probe order: one-based names with no, two and three
/// digits of zero padding, then the bare page number.
pub fn candidate_page_filenames(page: u64) -> (r: Vec<String>)
    ensures
        r@.len() == 4,
        r@[0]@ == "page-"@ + dec_digits(page as nat) + ".png"@,
        r@[1]@ == "page-"@ + dec_padded(page as nat, 2) + ".png"@,
        r@[2]@ == "page-"@ + dec_padded(page as nat, 3) + ".png"@,
        r@[3]@ == dec_digits(page as nat) + ".png"@,
{
    let plain = u64_to_dec(page);
    let pad2 = u64_to_dec_padded(page, 2);
    let pad3 = u64_to_dec_padded(page, 3);
    let mut r: Vec<String> = Vec::new();
    let mut a = String::new();
    a.append("page-");
    a.append(plain.as_str());
    a.append(".png");
    r.push(a);
    let mut b = String::new();
    b.append("page-");
    b.append(pad2.as_str());
    b.append(".png");
    r.push(b);
    let mut c = String::new();
    c.append("page-");
    c.append(pad3.as_str());
    c.append(".png");
    r.push(c);
    let mut d = String::new();
    d.append(plain.as_str());
    d.append(".png");
    r.push(d);
    r
}

/// The data URLs of the pages whose rendered bytes were found, in page
/// order.
pub open spec fn page_outputs(ps: Seq<Option<Seq<u8>>>) -> Seq<Seq<char>>
    decreases ps.len(),
{
    if ps.len() == 0 {
        Seq::empty()
    } else {
        page_outputs(ps.drop_last()) + (match ps.last() {
            Some(b) => seq![data_url_of(b)],
            None => Seq::<Seq<char>>::empty(),
        })
    }
}

/// The one-based numbers of the pages whose rendered bytes are
/// missing, in page order.
pub open spec fn missing_pages(ps: Seq<Option<Seq<u8>>>) -> Seq<int>
    decreases ps.len(),
{
    if ps.len() == 0 {
        Seq::empty()
    } else {
        missing_pages(ps.drop_last()) + (match ps.last() {
            Some(b) => Seq::<int>::empty(),
            None => seq![ps.len() as int],
        })
    }
}

/// Every page is either delivered or reported missing: the two counts
/// always sum to the page count.
pub proof fn lemma_page_accounting(ps: Seq<Option<Seq<u8>>>)
    ensures
        page_outputs(ps).len() + missing_pages(ps).len() == ps.len(),
        (forall|i: int| 0 <= i < ps.len() ==> ps[i] is Some) ==> missing_pages(ps).len() == 0,
    decreases ps.len(),
{
    if ps.len() > 0 {
        lemma_page_accounting(ps.drop_last());
        assert(forall|i: int|
            0 <= i < ps.drop_last().len() ==> ps.drop_last()[i] == ps[i]);
    }
}

/// The view of an optional byte vector.
pub open spec fn opt_bytes_view(o: Option<Vec<u8>>) -> Option<Seq<u8>> {
    match o {
        Some(v) => Some(v@),
        None => None,
    }
}

/// The views of a sequence of optional byte vectors.
pub open spec fn opt_bytes_views(ps: Seq<Option<Vec<u8>>>) -> Seq<Option<Seq<u8>>> {
    ps.map_values(|o: Option<Vec<u8>>| opt_bytes_view(o))
}

/// Assembles the rasterizer output from the per-page probe results:
/// a data URL for every page whose rendered file was found, and the
/// one-based page numbers of the gaps as a warning record.  Every page
/// is accounted for: the output count plus the warning count equals
/// the page count, so a caller sees every missing page explicitly.
#[verifier::loop_isolation(false)]
pub fn assemble_pages(pages: &Vec<Option<Vec<u8>>>) -> (r: (Vec<String>, Vec<u64>))
    requires
        forall|i: int|
            0 <= i < pages@.len() ==> ((#[trigger] pages@[i]) matches Some(b) ==> b@.len()
                <= usize::MAX / 2),
    ensures
        r.0@.map_values(|s: String| s@) == page_outputs(opt_bytes_views(pages@)),
        r.1@.map_values(|x: u64| x as int) == missing_pages(opt_bytes_views(pages@)),
        r.0@.len() + r.1@.len() == pages@.len(),
        (forall|i: int| 0 <= i < pages@.len() ==> (#[trigger] pages@[i]) is Some) ==> r.1@.len()
            == 0,
{
    let n = pages.len();
    let mut urls: Vec<String> = Vec::new();
    let mut missing: Vec<u64> = Vec::new();
    let mut i: usize = 0;
    proof {
        assert(opt_bytes_views(pages@.take(0)) =~= Seq::<Option<Seq<u8>>>::empty());
        assert(urls@.map_values(|s: String| s@) =~= page_outputs(opt_bytes_views(pages@.take(0))));
        assert(missing@.map_values(|x: u64| x as int) =~= missing_pages(
            opt_bytes_views(pages@.take(0)),
        ));
    }
    while i < n
        invariant
            n == pages@.len(),
            0 <= i <= n,
            urls@.map_values(|s: String| s@) == page_outputs(opt_bytes_views(pages@.take(i as int))),
            missing@.map_values(|x: u64| x as int) == missing_pages(
                opt_bytes_views(pages@.take(i as int)),
            ),
            urls@.len() + missing@.len() == i,
        decreases n - i,
    {
        proof {
            assert(pages@.take(i + 1) =~= pages@.take(i as int).push(pages@[i as int]));
            assert(opt_bytes_views(pages@.take(i + 1)) =~= opt_bytes_views(
                pages@.take(i as int),
            ).push(opt_bytes_view(pages@[i as int])));
            assert(opt_bytes_views(pages@.take(i + 1)).drop_last() =~= opt_bytes_views(
                pages@.take(i as int),
            ));
        }
        match &pages[i] {
            Some(bytes) => {
                let url = page_data_url(bytes);
                proof {
                    assert(url@ == data_url_of(bytes@));
                    assert(urls@.push(url).map_values(|s: String| s@) =~= urls@.map_values(
                        |s: String| s@,
                    ).push(url@));
                    assert(page_outputs(opt_bytes_views(pages@.take(i + 1))) =~= page_outputs(
                        opt_bytes_views(pages@.take(i as int)),
                    ).push(data_url_of(bytes@)));
                }
                urls.push(url);
            },
            None => {
                let page_num: u64 = (i as u64) + 1;
                proof {
                    assert(missing@.push(page_num).map_values(|x: u64| x as int)
                        =~= missing@.map_values(|x: u64| x as int).push(page_num as int));
                    assert(missing_pages(opt_bytes_views(pages@.take(i + 1))) =~= missing_pages(
                        opt_bytes_views(pages@.take(i as int)),
                    ).push(i + 1));
                }
                missing.push(page_num);
            },
        }
        i += 1;
    }
    proof {
        assert(pages@.take(n as int) =~= pages@);
        lemma_page_accounting(opt_bytes_views(pages@));
        if forall|i2: int| 0 <= i2 < pages@.len() ==> (#[trigger] pages@[i2]) is Some {
            assert forall|i2: int|
                0 <= i2 < opt_bytes_views(pages@).len() implies opt_bytes_views(pages@)[i2]
                is Some by {
                assert(pages@[i2] is Some);
            }
        }
    }
    (urls, missing)
}

/// One blank placeholder page per document page, as data URLs, for
/// when every rendering strategy has failed: exactly one placeholder
/// per page, so the page count invariant holds for downstream
/// consumers even though no real content is available.
#[verifier::loop_isolation(false)]
pub fn placeholder_pages(count: usize, width: u32, height: u32, level: u8) -> (r: Vec<String>)
    requires
        0 < width,
        0 < height,
        (width as int) * (height as int) <= 0x00ff_ffff,
    ensures
        r@.len() == count,
        forall|k: int|
            0 <= k < r@.len() ==> (#[trigger] r@[k])@ == data_url_of(
                solid_png_of(width, height, level),
            ),
{
    let bytes = match solid_png(width, height, level) {
        Some(b) => b,
        None => {
            proof {
                assert(false);
            }
            Vec::new()
        },
    };
    proof {
        assert(20 * (width as int) * (height as int) <= 20 * 0x00ff_ffff) by (nonlinear_arith)
            requires
                0 < width,
                0 < height,
                (width as int) * (height as int) <= 0x00ff_ffff,
        ;
        assert(usize::MAX / 2 >= 0x7fff_ffff);
    }
    let url = page_data_url(&bytes);
    let mut v: Vec<String> = Vec::new();
    let mut i: usize = 0;
    while i < count
        invariant
            0 <= i <= count,
            v@.len() == i,
            url@ == data_url_of(solid_png_of(width, height, level)),
            forall|k: int|
                0 <= k < i ==> (#[trigger] v@[k])@ == data_url_of(
                    solid_png_of(width, height, level),
                ),
        decreases count - i,
    {
        v.push(url.clone());
        i += 1;
    }
    v
}

} // verus!
