use vstd::prelude::*;

use crate::differentiation::{
    agrees, diff, differentiate_on, firsts, has_key, lemma_diff_correct, lemma_diff_covered,
    seconds, DiffKey, DifferentiationResult,
};
use crate::entities::{Chapter, Comic};

verus! {

/// A series is identified by its directory.
pub open spec fn comic_key(c: Comic) -> Seq<char> {
    c.dir_path@
}

/// Within a series, a chapter is identified by its path together with its number.
pub open spec fn chapter_key(c: Chapter) -> (Seq<char>, u32) {
    (c.path@, c.chapter_number)
}

/// The identity of a chapter within its series.
pub struct ChapterKey {
    pub path: String,
    pub number: u32,
}

impl View for ChapterKey {
    type V = (Seq<char>, u32);

    open spec fn view(&self) -> (Seq<char>, u32) {
        (self.path@, self.number)
    }
}

impl DiffKey for ChapterKey {
    fn key_eq(&self, other: &Self) -> (r: bool) {
        self.path == other.path && self.number == other.number
    }
}

/// `c` moved into the series `comic_id`, all else unchanged.
pub open spec fn in_comic(c: Chapter, comic_id: u32) -> Chapter {
    Chapter { comic_id, ..c }
}

/// The chapters of `scanned` that `lib_comic`'s persisted chapters `db_chaps` lack, as
/// chapters of `lib_comic`.
pub open spec fn new_chapters_spec(lib_id: u32, db_chaps: Seq<Chapter>, scanned: Seq<Chapter>) -> Seq<
    Chapter,
> {
    diff(db_chaps, scanned, |c: Chapter| chapter_key(c)).0.map_values(
        |c: Chapter| in_comic(c, lib_id),
    )
}

/// Splits the persisted series and the scanned series by directory: brand-new series are
/// added, series that vanished from disk are deleted, and the others are kept as
/// `(persisted, scanned)` pairs.
pub fn split_series(persisted: Vec<Comic>, scanned: Vec<Comic>) -> (r: DifferentiationResult<
    Comic,
>)
    ensures
        (r.added@, r.deleted@, r.kept@) == diff(persisted@, scanned@, |c: Comic| comic_key(c)),
{
    let on = |c: &Comic| -> (k: String)
        ensures
            k@ == c.dir_path@,
        { c.dir_path.clone() };
    let r = differentiate_on(persisted, scanned, on);
    assert(agrees(on, |c: Comic| comic_key(c)));
    r
}

/// Compares the persisted chapters `db_chaps` of the series `lib_id` with its scanned
/// chapters, keyed by path and number; the added chapters are moved into series `lib_id`.
pub fn chapter_changes(lib_id: u32, db_chaps: Vec<Chapter>, scanned: Vec<Chapter>) -> (r:
    DifferentiationResult<Chapter>)
    ensures
        r.added@ == new_chapters_spec(lib_id, db_chaps@, scanned@),
        (r.deleted@, r.kept@) == {
            let d = diff(db_chaps@, scanned@, |c: Chapter| chapter_key(c));
            (d.1, d.2)
        },
{
    let on = |c: &Chapter| -> (k: ChapterKey)
        ensures
            k@ == chapter_key(*c),
        { ChapterKey { path: c.path.clone(), number: c.chapter_number } };
    let d = differentiate_on(db_chaps, scanned, on);
    assert(agrees(on, |c: Chapter| chapter_key(c)));
    let DifferentiationResult { added, deleted, kept } = d;
    let ghost added0 = added@;
    let mut rest = added;
    let mut out: Vec<Chapter> = Vec::new();
    while rest.len() > 0
        invariant
            added0.len() == out@.len() + rest@.len(),
            rest@ == added0.skip(out@.len() as int),
            out@ == added0.take(out@.len() as int).map_values(|c: Chapter| in_comic(c, lib_id)),
        decreases rest@.len(),
    {
        let ghost k: int = out@.len() as int;
        let mut c = rest.remove(0);
        c.comic_id = lib_id;
        out.push(c);
        assert(rest@ =~= added0.skip(k + 1));
        assert(out@ =~= added0.take(k + 1).map_values(|c: Chapter| in_comic(c, lib_id)));
    }
    assert(added0.take(added0.len() as int) =~= added0);
    DifferentiationResult { added: out, deleted, kept }
}

/// The chapters of `scanned` that the persisted chapters `db_chaps` of `lib_comic` lack,
/// as chapters of `lib_comic`.
pub fn get_new_chaps_for(lib_comic: &Comic, scanned: Comic, db_chaps: Vec<Chapter>) -> (r: Vec<
    Chapter,
>)
    ensures
        r@ == new_chapters_spec(lib_comic.id, db_chaps@, scanned.chapters@),
{
    chapter_changes(lib_comic.id, db_chaps, scanned.chapters).added
}

/// What a reconciliation found.
pub struct ReconcileOutcome {
    /// Series found on disk that the catalog lacks, with their chapters.
    pub new_comics: Vec<Comic>,
    /// New chapters of series that the catalog already holds.
    pub new_chapters: Vec<Chapter>,
    /// Catalog series whose directory is gone; reported, not acted upon.
    pub deleted_comics: Vec<Comic>,
    /// Catalog chapters of kept series whose file is gone; reported, not acted upon.
    pub deleted_chapters: Vec<Chapter>,
}

/// The new chapters of the kept pairs `(persisted, scanned)`, pair after pair; a persisted
/// series brings its persisted chapters along.
pub open spec fn kept_new_chapters(kept: Seq<(Comic, Comic)>) -> Seq<Chapter>
    decreases kept.len(),
{
    if kept.len() == 0 {
        Seq::empty()
    } else {
        let p = kept.last();
        kept_new_chapters(kept.drop_last()) + new_chapters_spec(
            p.0.id,
            p.0.chapters@,
            p.1.chapters@,
        )
    }
}

pub open spec fn kept_deleted_chapters(kept: Seq<(Comic, Comic)>) -> Seq<Chapter>
    decreases kept.len(),
{
    if kept.len() == 0 {
        Seq::empty()
    } else {
        let p = kept.last();
        kept_deleted_chapters(kept.drop_last()) + diff(
            p.0.chapters@,
            p.1.chapters@,
            |c: Chapter| chapter_key(c),
        ).1
    }
}

/// Reconciles the persisted catalog, each series carrying its persisted chapters, with the
/// series of a scan: brand-new series, new chapters of known series, and what vanished.
pub fn reconcile(persisted: Vec<Comic>, scanned: Vec<Comic>) -> (r: ReconcileOutcome)
    ensures
        ({
            let d = diff(persisted@, scanned@, |c: Comic| comic_key(c));
            &&& r.new_comics@ == d.0
            &&& r.deleted_comics@ == d.1
            &&& r.new_chapters@ == kept_new_chapters(d.2)
            &&& r.deleted_chapters@ == kept_deleted_chapters(d.2)
        }),
{
    let split = split_series(persisted, scanned);
    let DifferentiationResult { added, deleted, kept } = split;
    let ghost kept0 = kept@;
    let mut pairs = kept;
    let mut new_chapters: Vec<Chapter> = Vec::new();
    let mut deleted_chapters: Vec<Chapter> = Vec::new();
    let ghost mut done: int = 0;
    while pairs.len() > 0
        invariant
            0 <= done,
            kept0.len() == done + pairs@.len(),
            pairs@ == kept0.skip(done as int),
            new_chapters@ == kept_new_chapters(kept0.take(done as int)),
            deleted_chapters@ == kept_deleted_chapters(kept0.take(done as int)),
        decreases pairs@.len(),
    {
        let ghost before = pairs@;
        let (p, s) = pairs.remove(0);
        assert(before[0] == kept0[done]);
        let ch = chapter_changes(p.id, p.chapters, s.chapters);
        let DifferentiationResult { added: mut a, deleted: mut x, kept: _ } = ch;
        new_chapters.append(&mut a);
        deleted_chapters.append(&mut x);
        proof {
            assert(kept0.take(done + 1).drop_last() =~= kept0.take(done));
            assert(kept0.take(done + 1).last() == kept0[done]);
            done = done + 1;
        }
        assert(pairs@ =~= kept0.skip(done as int));
    }
    assert(kept0.take(kept0.len() as int) =~= kept0);
    ReconcileOutcome { new_comics: added, new_chapters, deleted_comics: deleted, deleted_chapters }
}

/// A scan names each series directory once, and each chapter key once within its series.
pub open spec fn scan_well_formed(scanned: Seq<Comic>) -> bool {
    &&& forall|i: int, j: int|
        0 <= i < j < scanned.len() ==> comic_key(#[trigger] scanned[i]) != comic_key(
            #[trigger] scanned[j],
        )
    &&& forall|i: int, a: int, b: int|
        0 <= i < scanned.len() && 0 <= a < b < scanned[i].chapters@.len() ==> chapter_key(
            #[trigger] scanned[i].chapters@[a],
        ) != chapter_key(#[trigger] scanned[i].chapters@[b])
}

/// The persisted series `p` records the scanned series `s` and all of its chapters.
pub open spec fn records(p: Comic, s: Comic) -> bool {
    &&& comic_key(p) == comic_key(s)
    &&& forall|a: int|
        0 <= a < s.chapters@.len() ==> has_key(
            p.chapters@,
            |c: Chapter| chapter_key(c),
            chapter_key(#[trigger] s.chapters@[a]),
        )
}

/// The catalog holds each series directory once and records every scanned series.
pub open spec fn catalog_records(persisted: Seq<Comic>, scanned: Seq<Comic>) -> bool {
    &&& forall|i: int, j: int|
        0 <= i < j < persisted.len() ==> comic_key(#[trigger] persisted[i]) != comic_key(
            #[trigger] persisted[j],
        )
    &&& forall|i: int| 0 <= i < scanned.len() ==> #[trigger] recorded_in(persisted, scanned[i])
}

/// Some persisted series records `s`.
pub open spec fn recorded_in(persisted: Seq<Comic>, s: Comic) -> bool {
    exists|j: int| 0 <= j < persisted.len() && #[trigger] records(persisted[j], s)
}

proof fn lemma_no_new_chapters(kept: Seq<(Comic, Comic)>)
    requires
        forall|t: int|
            0 <= t < kept.len() ==> new_chapters_spec(
                (#[trigger] kept[t]).0.id,
                kept[t].0.chapters@,
                kept[t].1.chapters@,
            ).len() == 0,
    ensures
        kept_new_chapters(kept).len() == 0,
    decreases kept.len(),
{
    if kept.len() > 0 {
        let last = kept.last();
        assert(kept[kept.len() - 1] == last);
        assert forall|t: int| 0 <= t < kept.len() - 1 implies new_chapters_spec(
            (#[trigger] kept.drop_last()[t]).0.id,
            kept.drop_last()[t].0.chapters@,
            kept.drop_last()[t].1.chapters@,
        ).len() == 0 by {
            assert(kept.drop_last()[t] == kept[t]);
        }
        lemma_no_new_chapters(kept.drop_last());
    }
}

/// Reconciling a scan with a catalog that already records it finds no new series and no
/// new chapters; in particular, a second reconciliation against an unchanged directory tree,
/// once the first one's additions are persisted, adds nothing.
pub proof fn lemma_reconcile_idempotent(persisted: Seq<Comic>, scanned: Seq<Comic>)
    requires
        scan_well_formed(scanned),
        catalog_records(persisted, scanned),
    ensures
        ({
            let d = diff(persisted, scanned, |c: Comic| comic_key(c));
            &&& d.0.len() == 0
            &&& kept_new_chapters(d.2).len() == 0
        }),
{
    let ck = |c: Comic| comic_key(c);
    let chk = |c: Chapter| chapter_key(c);
    assert forall|i: int| 0 <= i < scanned.len() implies has_key(
        persisted,
        ck,
        ck(#[trigger] scanned[i]),
    ) by {
        assert(recorded_in(persisted, scanned[i]));
        let j = choose|j: int| 0 <= j < persisted.len() && #[trigger] records(persisted[j], scanned[i]);
        assert(ck(persisted[j]) == ck(scanned[i]));
    }
    lemma_diff_covered(persisted, scanned, ck);
    lemma_diff_correct(persisted, scanned, ck);
    let d = diff(persisted, scanned, ck);
    assert forall|t: int| 0 <= t < d.2.len() implies new_chapters_spec(
        (#[trigger] d.2[t]).0.id,
        d.2[t].0.chapters@,
        d.2[t].1.chapters@,
    ).len() == 0 by {
        let p = d.2[t].0;
        let s = d.2[t].1;
        assert(firsts(d.2)[t] == p);
        assert(seconds(d.2)[t] == s);
        assert((firsts(d.2).to_set() + d.1.to_set()).contains(p));
        assert((seconds(d.2).to_set() + d.0.to_set()).contains(s));
        let jp = choose|jp: int| 0 <= jp < persisted.len() && persisted[jp] == p;
        let i = choose|i: int| 0 <= i < scanned.len() && scanned[i] == s;
        assert(recorded_in(persisted, scanned[i]));
        let j = choose|j: int| 0 <= j < persisted.len() && #[trigger] records(persisted[j], scanned[i]);
        assert(ck(p) == ck(s));
        if jp != j {
            if jp < j {
                assert(comic_key(persisted[jp]) != comic_key(persisted[j]));
            } else {
                assert(comic_key(persisted[j]) != comic_key(persisted[jp]));
            }
        }
        assert forall|a: int| 0 <= a < s.chapters@.len() implies has_key(
            p.chapters@,
            chk,
            chk(#[trigger] s.chapters@[a]),
        ) by {
            assert(records(p, s));
        }
        assert forall|a: int, b: int| 0 <= a < b < s.chapters@.len() implies chk(
            #[trigger] s.chapters@[a],
        ) != chk(#[trigger] s.chapters@[b]) by {
            assert(scanned[i].chapters@[a] == s.chapters@[a]);
        }
        lemma_diff_covered(p.chapters@, s.chapters@, chk);
    }
    lemma_no_new_chapters(d.2);
}

/// Sets the page count of each chapter to the matching entry of `counts`.
pub fn assign_pages(chapters: &mut Vec<Chapter>, counts: &Vec<u32>)
    requires
        old(chapters)@.len() == counts@.len(),
    ensures
        final(chapters)@.len() == old(chapters)@.len(),
        forall|i: int|
            0 <= i < counts@.len() ==> #[trigger] final(chapters)@[i] == (Chapter {
                pages: counts@[i],
                ..old(chapters)@[i]
            }),
{
    let ghost orig = chapters@;
    let mut out: Vec<Chapter> = Vec::new();
    let mut rest: Vec<Chapter> = Vec::new();
    core::mem::swap(chapters, &mut rest);
    while rest.len() > 0
        invariant
            orig.len() == counts@.len(),
            orig.len() == out@.len() + rest@.len(),
            rest@ == orig.skip(out@.len() as int),
            forall|i: int|
                0 <= i < out@.len() ==> #[trigger] out@[i] == (Chapter { pages: counts@[i], ..orig[i] }),
        decreases rest@.len(),
    {
        let k = out.len();
        let mut c = rest.remove(0);
        c.pages = counts[k];
        out.push(c);
        assert(rest@ =~= orig.skip(k + 1));
    }
    *chapters = out;
}

} // verus!
