//! Exact search on a graphics card: its settings, and what is made of the scores
//! that the card computes.
use crate::collection::{views, CollectionConfig, Point};
use crate::error::{Error, ErrorView, Result};
use crate::hnsw::model::at_most;
use crate::ids::IdSet;
use crate::parse::{is_word, law_numerals_are_read_back, numeral, parse_size, same_word};
use crate::ranking::{
    better, is_better, lemma_better_total, lemma_better_transitive, Ranked,
};
use crate::sort::{arranged, sort, Sortable};
use crate::text::{decimal, join};
use vstd::prelude::*;
use vstd::string::*;

verus! {

/// Whether searches use a graphics card.
#[derive(Debug, Clone, Copy, PartialEq, Eq, Structural)]
pub enum CudaSearchMode {
    Disabled,
    /// Where a card is available and the collection is large enough.
    Preferred,
    /// A collection without a card cannot be opened.
    Required,
}

/// How searches use a graphics card.
#[derive(Debug, Clone, Copy, PartialEq, Eq, Structural)]
pub struct CudaSearchConfig {
    pub mode: CudaSearchMode,
    pub device: usize,
    /// Smaller collections stay on the processor where a card is only preferred.
    pub min_vectors: usize,
}

/// The settings where none are made.
pub open spec fn default_cuda() -> CudaSearchConfig {
    CudaSearchConfig { mode: CudaSearchMode::Disabled, device: 0, min_vectors: 10_000 }
}

impl Default for CudaSearchConfig {
    fn default() -> (config: CudaSearchConfig)
        ensures
            config == default_cuda(),
    {
        CudaSearchConfig { mode: CudaSearchMode::Disabled, device: 0, min_vectors: 10_000 }
    }
}

/// A variable of the environment.
#[derive(Debug, PartialEq, Eq)]
pub enum Setting {
    Unset,
    NotText,
    Text(String),
}

/// The mode that a word stands for.
pub open spec fn mode_of(word: Seq<char>) -> Option<CudaSearchMode> {
    if is_word(word, ""@) || is_word(word, "0"@) || is_word(word, "off"@) || is_word(
        word,
        "false"@,
    ) || is_word(word, "disabled"@) {
        Some(CudaSearchMode::Disabled)
    } else if is_word(word, "1"@) || is_word(word, "on"@) || is_word(word, "true"@) || is_word(
        word,
        "auto"@,
    ) || is_word(word, "preferred"@) {
        Some(CudaSearchMode::Preferred)
    } else if is_word(word, "required"@) {
        Some(CudaSearchMode::Required)
    } else {
        None
    }
}

fn parse_mode(word: &str) -> (mode: Option<CudaSearchMode>)
    ensures
        mode == mode_of(word@),
{
    if same_word(word, "") || same_word(word, "0") || same_word(word, "off") || same_word(
        word,
        "false",
    ) || same_word(word, "disabled") {
        Some(CudaSearchMode::Disabled)
    } else if same_word(word, "1") || same_word(word, "on") || same_word(word, "true")
        || same_word(word, "auto") || same_word(word, "preferred") {
        Some(CudaSearchMode::Preferred)
    } else if same_word(word, "required") {
        Some(CudaSearchMode::Required)
    } else {
        None
    }
}

/// The number that a variable is set to.
pub open spec fn number_setting(name: Seq<char>, setting: Setting, default: usize) -> core::result::Result<
    usize,
    ErrorView,
> {
    match setting {
        Setting::Unset => Ok(default),
        Setting::NotText => Err(ErrorView::InvalidConfiguration(name + " is not UTF-8"@)),
        Setting::Text(text) => if numeral(text@) matches Some(n) && n <= usize::MAX {
            Ok(numeral(text@)->0 as usize)
        } else {
            Err(ErrorView::InvalidConfiguration(name + " must be a non-negative integer"@))
        },
    }
}

fn read_number(name: &str, setting: &Setting, default: usize) -> (result: Result<usize>)
    ensures
        match number_setting(name@, *setting, default) {
            Ok(n) => result is Ok && result->Ok_0 == n,
            Err(error) => result is Err && result->Err_0@ == error,
        },
{
    match setting {
        Setting::Unset => Ok(default),
        Setting::NotText => Err(Error::InvalidConfiguration(join(name, " is not UTF-8"))),
        Setting::Text(text) => match parse_size(text.as_str()) {
            Some(n) => Ok(n),
            None => Err(
                Error::InvalidConfiguration(join(name, " must be a non-negative integer")),
            ),
        },
    }
}

/// The settings of the environment.
pub open spec fn cuda_settings(mode: Setting, device: Setting, min_vectors: Setting) -> core::result::Result<
    CudaSearchConfig,
    ErrorView,
> {
    match mode {
        Setting::Unset => Ok(default_cuda()),
        Setting::NotText => Err(ErrorView::InvalidConfiguration("FOCAL_CUDA is not UTF-8"@)),
        Setting::Text(word) => match mode_of(word@) {
            None => Err(
                ErrorView::InvalidConfiguration("FOCAL_CUDA must be off, auto, or required"@),
            ),
            Some(mode) => match number_setting("FOCAL_CUDA_DEVICE"@, device, 0) {
                Err(error) => Err(error),
                Ok(device) => match number_setting(
                    "FOCAL_CUDA_MIN_VECTORS"@,
                    min_vectors,
                    10_000,
                ) {
                    Err(error) => Err(error),
                    Ok(min_vectors) => Ok(CudaSearchConfig { mode, device, min_vectors }),
                },
            },
        },
    }
}

impl CudaSearchConfig {
    /// Reads the settings of the environment.
    pub fn from_env(mode: &Setting, device: &Setting, min_vectors: &Setting) -> (result: Result<
        CudaSearchConfig,
    >)
        ensures
            match cuda_settings(*mode, *device, *min_vectors) {
                Ok(config) => result is Ok && result->Ok_0 == config,
                Err(error) => result is Err && result->Err_0@ == error,
            },
    {
        let word = match mode {
            Setting::Unset => {
                return Ok(CudaSearchConfig::default());
            },
            Setting::NotText => {
                return Err(Error::InvalidConfiguration("FOCAL_CUDA is not UTF-8".to_owned()));
            },
            Setting::Text(word) => word,
        };
        let mode = match parse_mode(word.as_str()) {
            Some(mode) => mode,
            None => {
                return Err(
                    Error::InvalidConfiguration(
                        "FOCAL_CUDA must be off, auto, or required".to_owned(),
                    ),
                );
            },
        };
        let device: usize = read_number("FOCAL_CUDA_DEVICE", device, 0)?;
        let min_vectors: usize = read_number("FOCAL_CUDA_MIN_VECTORS", min_vectors, 10_000)?;
        Ok(CudaSearchConfig { mode, device, min_vectors })
    }
}

/// A result of a search on the card.
#[derive(Debug, PartialEq, Eq)]
pub struct CudaHit {
    pub id: String,
    pub score: u32,
}

impl View for CudaHit {
    type V = Ranked;

    open spec fn view(&self) -> Ranked {
        Ranked { score: self.score, id: self.id@ }
    }
}

impl Sortable for CudaHit {
    open spec fn at_most(a: Ranked, b: Ranked) -> bool {
        !better(b, a)
    }

    proof fn lemma_total(a: Ranked, b: Ranked) {
        lemma_better_total(a, b);
    }

    proof fn lemma_transitive(a: Ranked, b: Ranked, c: Ranked) {
        lemma_better_total(a, b);
        lemma_better_total(b, c);
        lemma_better_total(a, c);
        if better(a, b) && better(b, c) {
            lemma_better_transitive(a, b, c);
        }
    }

    fn is_at_most(&self, other: &CudaHit) -> (r: bool) {
        !is_better(other.score, other.id.as_str(), self.score, self.id.as_str())
    }
}

/// `top` are the first `k` of the results in order.
pub open spec fn top_rows(hits: Seq<CudaHit>, k: usize, top: Seq<CudaHit>) -> bool {
    exists|sorted: Seq<CudaHit>| #[trigger]
        arranged(sorted, true) && sorted.to_multiset() == hits.to_multiset() && top == at_most(
            sorted,
            k,
        )
}

/// The first `k` results: the highest scores first, ties by ID.
pub fn select_top_k(hits: Vec<CudaHit>, k: usize) -> (top: Vec<CudaHit>)
    ensures
        top_rows(hits@, k, top@),
{
    let mut top = sort(hits, true);
    let ghost all = top@;
    top.truncate(k);
    proof {
        assert(top@ =~= at_most(all, k));
        assert(arranged(all, true));
    }
    top
}

/// The rows with their scores, up to one of them and without the excluded IDs.
pub open spec fn rows_kept(
    ids: Seq<Seq<char>>,
    scores: Seq<u32>,
    excluded: Set<Seq<char>>,
    upto: int,
) -> Seq<Ranked>
    decreases upto,
{
    if upto <= 0 {
        seq![]
    } else {
        let front = rows_kept(ids, scores, excluded, upto - 1);
        if excluded.contains(ids[upto - 1]) {
            front
        } else {
            front.push(Ranked { score: scores[upto - 1], id: ids[upto - 1] })
        }
    }
}

/// As many rows as have both an ID and a score.
pub open spec fn row_count(ids: nat, scores: nat) -> int {
    if ids <= scores {
        ids as int
    } else {
        scores as int
    }
}

/// Results made of the scores of the rows.
pub open spec fn ranked_rows(
    ids: Seq<Seq<char>>,
    scores: Seq<u32>,
    excluded: Set<Seq<char>>,
    k: usize,
    top: Seq<CudaHit>,
) -> bool {
    exists|hits: Seq<CudaHit>| #[trigger]
        top_rows(hits, k, top) && views(hits) == rows_kept(
            ids,
            scores,
            excluded,
            row_count(ids.len(), scores.len()),
        )
}

/// The components of points in a row.
pub open spec fn matrix_of(points: Seq<Point>) -> Seq<u32>
    decreases points.len(),
{
    if points.len() == 0 {
        seq![]
    } else {
        matrix_of(points.drop_last()) + points.last().vector@
    }
}

/// The IDs of points.
pub open spec fn row_ids(points: Seq<Point>) -> Seq<Seq<char>> {
    Seq::new(points.len(), |i: int| points[i].id@)
}

/// The rows of a matrix on a graphics card.
pub struct CudaIndex {
    config: CollectionConfig,
    ids: Vec<String>,
}

/// The shape of the rows, and whose they are.
pub struct CudaView {
    pub config: CollectionConfig,
    pub ids: Seq<Seq<char>>,
}

impl View for CudaIndex {
    type V = CudaView;

    closed spec fn view(&self) -> CudaView {
        CudaView { config: self.config, ids: views(self.ids@) }
    }
}

impl CudaIndex {
    /// Lays points out as the rows of a matrix: the index, and the components that
    /// go to the card.
    pub fn build(config: CollectionConfig, points: &Vec<Point>) -> (result: Result<
        (CudaIndex, Vec<u32>),
    >)
        ensures
            if points@.len() == 0 {
                result is Err && result->Err_0@ == ErrorView::InvalidConfiguration(
                    "cannot create a CUDA index for an empty collection"@,
                )
            } else if points@.len() * config.dimension > usize::MAX {
                result is Err && result->Err_0@ == ErrorView::ResourceExhausted(
                    "CUDA vector matrix is too large"@,
                )
            } else {
                &&& result is Ok
                &&& result->Ok_0.0@ == (CudaView { config, ids: row_ids(points@) })
                &&& result->Ok_0.1@ == matrix_of(points@)
            },
    {
        if points.len() == 0 {
            return Err(
                Error::InvalidConfiguration(
                    "cannot create a CUDA index for an empty collection".to_owned(),
                ),
            );
        }
        match points.len().checked_mul(config.dimension) {
            None => {
                return Err(
                    Error::ResourceExhausted("CUDA vector matrix is too large".to_owned()),
                );
            },
            Some(_) => {},
        }
        let mut ids: Vec<String> = Vec::new();
        let mut components: Vec<u32> = Vec::new();
        let mut i: usize = 0;
        assert(points@.subrange(0, 0) =~= Seq::empty());
        assert(components@ =~= Seq::empty());
        while i < points.len()
            invariant
                i <= points@.len(),
                ids@.len() == i,
                forall|j: int| 0 <= j < i ==> (#[trigger] ids@[j])@ == points@[j].id@,
                components@ == matrix_of(points@.subrange(0, i as int)),
            decreases points.len() - i,
        {
            ids.push(points[i].id.clone());
            let ghost before = components@;
            components.extend_from_slice(points[i].vector.as_slice());
            proof {
                assert(points@.subrange(0, i + 1).drop_last() =~= points@.subrange(0, i as int));
                assert(components@ =~= before + points@[i as int].vector@);
            }
            i = i + 1;
        }
        proof {
            assert(points@.subrange(0, i as int) =~= points@);
            assert(views(ids@) =~= row_ids(points@));
        }
        Ok((CudaIndex { config, ids }, components))
    }

    /// The number of rows.
    pub fn len(&self) -> (length: usize)
        ensures
            length == self@.ids.len(),
    {
        self.ids.len()
    }

    /// The `k` best rows without the excluded IDs. `score` scores every row, given
    /// the dimension and the number of rows.
    pub fn search<S: FnOnce(i32, i32) -> Result<Vec<u32>>>(
        &self,
        k: usize,
        excluded: &IdSet,
        score: S,
    ) -> (result: Result<Vec<CudaHit>>)
        requires
            excluded.wf(),
            self@.config.dimension <= i32::MAX && self@.ids.len() <= i32::MAX ==> score.requires(
                (self@.config.dimension as i32, self@.ids.len() as i32),
            ),
        ensures
            if self@.config.dimension > i32::MAX {
                result is Err && result->Err_0@ == ErrorView::ResourceExhausted(
                    "CUDA dimension exceeds i32"@,
                )
            } else if self@.ids.len() > i32::MAX {
                result is Err && result->Err_0@ == ErrorView::ResourceExhausted(
                    "CUDA row count exceeds i32"@,
                )
            } else {
                exists|scored: Result<Vec<u32>>| #[trigger]
                    score.ensures(
                        (self@.config.dimension as i32, self@.ids.len() as i32),
                        scored,
                    ) && match scored {
                        Err(error) => result == Err::<Vec<CudaHit>, Error>(error),
                        Ok(scores) => result is Ok && ranked_rows(
                            self@.ids,
                            scores@,
                            excluded@,
                            k,
                            result->Ok_0@,
                        ),
                    }
            },
    {
        if self.config.dimension > i32::MAX as usize {
            return Err(Error::ResourceExhausted("CUDA dimension exceeds i32".to_owned()));
        }
        if self.ids.len() > i32::MAX as usize {
            return Err(Error::ResourceExhausted("CUDA row count exceeds i32".to_owned()));
        }
        let scored = score(self.config.dimension as i32, self.ids.len() as i32);
        assert(score.ensures((self@.config.dimension as i32, self@.ids.len() as i32), scored));
        let scores = match scored {
            Err(error) => {
                return Err(error);
            },
            Ok(scores) => scores,
        };
        let ghost names = views(self.ids@);
        let mut hits: Vec<CudaHit> = Vec::new();
        let mut i: usize = 0;
        assert(views(hits@) =~= Seq::empty());
        while i < self.ids.len() && i < scores.len()
            invariant
                excluded.wf(),
                names == views(self.ids@),
                i <= self.ids@.len(),
                i <= scores@.len(),
                views(hits@) == rows_kept(names, scores@, excluded@, i as int),
            decreases self.ids.len() - i,
        {
            let ghost before = views(hits@);
            assert(names[i as int] == self.ids@[i as int]@);
            if !excluded.contains(self.ids[i].as_str()) {
                let hit = CudaHit { id: self.ids[i].clone(), score: scores[i] };
                let ghost value = hit@;
                hits.push(hit);
                assert(views(hits@) =~= before.push(value));
            }
            i = i + 1;
        }
        assert(i == row_count(names.len(), scores@.len()));
        let ghost all = hits@;
        let top = select_top_k(hits, k);
        assert(top_rows(all, k, top@));
        Ok(top)
    }
}

/// What a failure of the card comes to.
pub fn cuda_error(context: &str, reason: &str) -> (error: Error)
    ensures
        error@ == ErrorView::ResourceExhausted(context@ + ": "@ + reason@),
{
    let mut message = join(context, ": ");
    message.append(reason);
    Error::ResourceExhausted(message)
}

proof fn lemma_rows_kept(
    ids: Seq<Seq<char>>,
    scores: Seq<u32>,
    excluded: Set<Seq<char>>,
    upto: int,
    r: Ranked,
)
    requires
        0 <= upto,
    ensures
        rows_kept(ids, scores, excluded, upto).contains(r) <==> exists|i: int|
            #![trigger ids[i]]
            0 <= i < upto && ids[i] == r.id && scores[i] == r.score && !excluded.contains(r.id),
    decreases upto,
{
    if upto > 0 {
        lemma_rows_kept(ids, scores, excluded, upto - 1, r);
        let front = rows_kept(ids, scores, excluded, upto - 1);
        let all = rows_kept(ids, scores, excluded, upto);
        if all.contains(r) {
            let x = choose|x: int| 0 <= x < all.len() && all[x] == r;
            if x < front.len() {
                assert(front[x] == r);
                assert(front.contains(r));
                let i = choose|i: int|
                    #![trigger ids[i]]
                    0 <= i < upto - 1 && ids[i] == r.id && scores[i] == r.score
                        && !excluded.contains(r.id);
                assert(ids[i] == r.id);
            } else {
                assert(ids[upto - 1] == r.id);
            }
        }
        if exists|i: int|
            #![trigger ids[i]]
            0 <= i < upto && ids[i] == r.id && scores[i] == r.score && !excluded.contains(r.id) {
            let i = choose|i: int|
                #![trigger ids[i]]
                0 <= i < upto && ids[i] == r.id && scores[i] == r.score && !excluded.contains(
                    r.id,
                );
            if i < upto - 1 {
                assert(front.contains(r));
                let x = choose|x: int| 0 <= x < front.len() && front[x] == r;
                assert(all[x] == r);
            } else {
                assert(all[all.len() - 1] == r);
            }
        }
    }
}

/// Of the rows that were scored, the `k` best come back: every result is a row with its
/// score that was not excluded, none is worse than one behind it, and a row that is left
/// out, though it was not excluded, is no better than any result; where there are fewer
/// than `k` results none is left out.
pub proof fn law_best_rows_come_back(
    ids: Seq<Seq<char>>,
    scores: Seq<u32>,
    excluded: Set<Seq<char>>,
    k: usize,
    top: Seq<CudaHit>,
    i: int,
)
    requires
        ids.len() == scores.len(),
        ranked_rows(ids, scores, excluded, k, top),
    ensures
        top.len() <= k,
        forall|x: int|
            0 <= x < top.len() ==> exists|j: int|
                #![trigger ids[j]]
                0 <= j < ids.len() && ids[j] == (#[trigger] top[x])@.id && scores[j]
                    == top[x]@.score && !excluded.contains(ids[j]),
        forall|x: int, y: int|
            0 <= x < y < top.len() ==> !better((#[trigger] top[y])@, (#[trigger] top[x])@),
        0 <= i < ids.len() && !excluded.contains(ids[i]) ==> {
            let row = Ranked { score: scores[i], id: ids[i] };
            ||| exists|x: int| 0 <= x < top.len() && (#[trigger] top[x])@ == row
            ||| top.len() == k && forall|x: int|
                0 <= x < top.len() ==> !better(row, (#[trigger] top[x])@)
        },
{
    let rows = rows_kept(ids, scores, excluded, row_count(ids.len(), scores.len()));
    let hits = choose|hits: Seq<CudaHit>| #[trigger] top_rows(hits, k, top) && views(hits) == rows;
    let sorted = choose|sorted: Seq<CudaHit>| #[trigger]
        arranged(sorted, true) && sorted.to_multiset() == hits.to_multiset() && top == at_most(
            sorted,
            k,
        );
    assert forall|x: int| 0 <= x < top.len() implies exists|j: int|
        #![trigger ids[j]]
        0 <= j < ids.len() && ids[j] == (#[trigger] top[x])@.id && scores[j] == top[x]@.score
            && !excluded.contains(ids[j]) by {
        assert(top[x] == sorted[x]);
        assert(sorted.contains(sorted[x]));
        vstd::seq_lib::to_multiset_contains(sorted, sorted[x]);
        vstd::seq_lib::to_multiset_contains(hits, sorted[x]);
        let h = choose|h: int| 0 <= h < hits.len() && hits[h] == sorted[x];
        assert(views(hits)[h] == top[x]@);
        assert(rows.contains(top[x]@));
        lemma_rows_kept(ids, scores, excluded, ids.len() as int, top[x]@);
    }
    assert forall|x: int, y: int| 0 <= x < y < top.len() implies !better(
        (#[trigger] top[y])@,
        (#[trigger] top[x])@,
    ) by {
        assert(top[x] == sorted[x] && top[y] == sorted[y]);
    }
    if 0 <= i < ids.len() && !excluded.contains(ids[i]) {
        let row = Ranked { score: scores[i], id: ids[i] };
        lemma_rows_kept(ids, scores, excluded, ids.len() as int, row);
        assert(ids[i] == row.id);
        assert(rows.contains(row));
        let h = choose|h: int| 0 <= h < rows.len() && rows[h] == row;
        assert(views(hits)[h] == row);
        assert(hits.contains(hits[h]));
        vstd::seq_lib::to_multiset_contains(hits, hits[h]);
        vstd::seq_lib::to_multiset_contains(sorted, hits[h]);
        let at = choose|at: int| 0 <= at < sorted.len() && sorted[at] == hits[h];
        if at < top.len() {
            assert(top[at]@ == row);
        } else {
            assert forall|x: int| 0 <= x < top.len() implies !better(row, (#[trigger] top[x])@) by {
                assert(top[x] == sorted[x]);
                assert(!better(sorted[at]@, sorted[x]@));
            }
        }
    }
}

/// A number that is set is the number that is used, where it is written as a numeral; a
/// number that is not set has its default.
pub proof fn law_numbers_are_read_back(name: Seq<char>, text: String, n: usize, default: usize)
    ensures
        text@ == decimal(n as nat) ==> number_setting(name, Setting::Text(text), default) == Ok::<
            usize,
            ErrorView,
        >(n),
        number_setting(name, Setting::Unset, default) == Ok::<usize, ErrorView>(default),
{
    law_numerals_are_read_back(n as nat);
}

/// The rows of the matrix are the vectors of the points, one behind the other: each
/// component stands in the row of its point.
pub proof fn law_rows_stand_in_the_matrix(points: Seq<Point>, width: nat, row: int, column: int)
    requires
        forall|i: int| 0 <= i < points.len() ==> (#[trigger] points[i]).vector@.len() == width,
    ensures
        matrix_of(points).len() == points.len() * width,
        0 <= row < points.len() && 0 <= column < width ==> matrix_of(points)[row * width + column]
            == points[row].vector@[column],
    decreases points.len(),
{
    if points.len() == 0 {
        assert(0 * width == 0) by (nonlinear_arith);
    } else {
        let rest = points.drop_last();
        let end = points.len() - 1;
        assert forall|i: int| 0 <= i < rest.len() implies (#[trigger] rest[i]).vector@.len()
            == width by {
            assert(points[i].vector@.len() == width);
        }
        law_rows_stand_in_the_matrix(rest, width, row, column);
        assert(points[end].vector@.len() == width);
        assert(points.len() * width == end * width + width) by (nonlinear_arith)
            requires
                points.len() == end + 1,
        ;
        if 0 <= row < end && 0 <= column < width {
            assert(row * width + column < end * width && row * width >= 0) by (nonlinear_arith)
                requires
                    0 <= row < end,
                    0 <= column < width,
            ;
        }
    }
}

} // verus!
