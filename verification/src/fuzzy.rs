//! Approximate matching of games against a free-text query.
//!
//! Each game is scored by an edit-distance-bounded substring matcher over
//! a case-folded composite of country, competition and team names. The
//! matcher's distances are integers, so scores stay exact here: the single
//! query scores a game by the best distance of the whole query, the mixed
//! query by the mean of per-word scores in thousandths, held as a
//! numerator and denominator. Matches come back sorted by score, ties
//! broken by the four names in order.

use crate::generic_structs::Competition;
use crate::generic_structs::CompetitionView;
use crate::generic_structs::Country;
use crate::generic_structs::CountryView;
use crate::generic_structs::Football;
use crate::generic_structs::FootballView;
use crate::generic_structs::Game;
use crate::generic_structs::GameView;
use crate::sorting::insertion_sort;
use crate::sorting::spec_sort_le;
use crate::sorting::views_of;
use crate::sorting::OrderedBy;
use crate::sorting::SpecOrdered;
use crate::strutil::lemma_lex_le_antisym;
use crate::strutil::lemma_lex_le_total;
use crate::strutil::lemma_lex_le_trans;
use crate::strutil::chars_to_string;
use crate::strutil::lowered_chars;
use crate::strutil::push_lowered;
use crate::strutil::spec_lex_le;
use crate::strutil::spec_lower;
use crate::strutil::spec_lower_char;
use crate::strutil::spec_tokens;
use crate::strutil::str_eq;
use crate::strutil::str_lex_le;
use crate::strutil::tokenize;
use vstd::prelude::*;

verus! {

/// The distances of the matches that the bitap matcher reports for a
/// pattern against a text under a maximum edit distance, in text order.
/// The matcher is a pure algorithm, so the result depends on these
/// arguments alone.
pub uninterp spec fn bitap_lev_distances(
    pattern: Seq<char>,
    text: Seq<char>,
    max_distance: int,
) -> Seq<usize>;

/// A pattern the matcher accepts: nonempty and shorter than the machine
/// word width in bits.
pub open spec fn spec_valid_pattern(pattern: Seq<char>) -> bool {
    1 <= pattern.len() < 64
}

/// Relies on bitap::Pattern::new and bitap::Pattern::lev: compiling fails
/// exactly for an empty pattern or one of 64 or more characters; the match
/// iterator yields at most one match per text character, each with a
/// Levenshtein distance of at most the pattern length.
#[verifier::external_body]
fn bitap_lev(pattern: &str, text: &str, max_distance: usize) -> (r: Option<Vec<usize>>)
    ensures
        r is Some <==> spec_valid_pattern(pattern@),
        r matches Some(v) ==> v@ == bitap_lev_distances(pattern@, text@, max_distance as int),
        r matches Some(v) ==> v@.len() <= text@.len(),
        r matches Some(v) ==> forall|i: int| 0 <= i < v@.len() ==> v@[i] <= pattern@.len(),
{
    match bitap::Pattern::new(pattern) {
        Err(_) => None,
        Ok(p) => Some(p.lev(text, max_distance).map(|m| m.distance).collect()),
    }
}

/// The maximum edit distance handed to the matcher: effectively unbounded,
/// the matcher caps it at the pattern length.
pub const FUZZY_MAX_DISTANCE: usize = 100_000;

/// The least element of a distance list.
pub open spec fn spec_min_dist(ds: Seq<usize>) -> Option<usize>
    decreases ds.len(),
{
    if ds.len() == 0 {
        None
    } else {
        match spec_min_dist(ds.drop_last()) {
            None => Some(ds.last()),
            Some(m) => if ds.last() < m {
                Some(ds.last())
            } else {
                Some(m)
            },
        }
    }
}

/// Least element of a distance list.
fn min_dist(ds: &Vec<usize>) -> (r: Option<usize>)
    ensures
        r == spec_min_dist(ds@),
{
    let mut r: Option<usize> = None;
    let mut i: usize = 0;
    proof {
        assert(ds@.take(0) =~= Seq::<usize>::empty());
    }
    while i < ds.len()
        invariant
            i <= ds@.len(),
            r == spec_min_dist(ds@.take(i as int)),
        decreases ds@.len() - i,
    {
        let d = ds[i];
        proof {
            assert(ds@.take(i + 1).drop_last() =~= ds@.take(i as int));
            assert(ds@.take(i + 1).last() == ds@[i as int]);
        }
        r = match r {
            None => Some(d),
            Some(m) => if d < m {
                Some(d)
            } else {
                Some(m)
            },
        };
        i = i + 1;
    }
    proof {
        assert(ds@.take(ds@.len() as int) =~= ds@);
    }
    r
}

/// The case-folded composite string of a game: country, competition, home
/// team and away team, separated by single spaces.
pub open spec fn spec_composite(cn: Seq<char>, pn: Seq<char>, g: GameView) -> Seq<char> {
    spec_lower(cn) + seq![' '] + spec_lower(pn) + seq![' '] + spec_lower(g.home_team) + seq![' ']
        + spec_lower(g.away_team)
}

/// Builds the composite string of a game as case-folded characters.
fn composite_chars(country: &str, competition: &str, game: &Game) -> (r: Vec<char>)
    ensures
        r@ == spec_composite(country@, competition@, game@),
{
    let mut out: Vec<char> = Vec::new();
    push_lowered(&mut out, country);
    out.push(' ');
    push_lowered(&mut out, competition);
    out.push(' ');
    push_lowered(&mut out, game.home_team.as_str());
    out.push(' ');
    push_lowered(&mut out, game.away_team.as_str());
    proof {
        assert(spec_lower_char(' ') == ' ');
        assert(out@ =~= spec_composite(country@, competition@, game@));
    }
    out
}

/// One scored match: the score as an exact fraction `num / den` (lower is
/// better), with the country, competition and game it belongs to.
pub struct FuzzyMatch {
    pub score_num: u64,
    pub score_den: u64,
    pub country: Country,
    pub competition: Competition,
    pub game: Game,
}

/// Mathematical model of a scored match.
#[verifier::ext_equal]
pub struct FuzzyMatchView {
    pub score_num: u64,
    pub score_den: u64,
    pub country: CountryView,
    pub competition: CompetitionView,
    pub game: GameView,
}

impl View for FuzzyMatch {
    type V = FuzzyMatchView;

    open spec fn view(&self) -> FuzzyMatchView {
        FuzzyMatchView {
            score_num: self.score_num,
            score_den: self.score_den,
            country: self.country@,
            competition: self.competition@,
            game: self.game@,
        }
    }
}

impl DeepView for FuzzyMatch {
    type V = FuzzyMatchView;

    open spec fn deep_view(&self) -> FuzzyMatchView {
        self.view()
    }
}

/// The four name keys of a match, in tie-breaking order.
pub open spec fn spec_match_keys(m: FuzzyMatchView) -> Seq<Seq<char>> {
    seq![m.country.name, m.competition.name, m.game.home_team, m.game.away_team]
}

/// Lexicographic order on equal-length lists of strings.
pub open spec fn spec_lex_list_le(a: Seq<Seq<char>>, b: Seq<Seq<char>>) -> bool
    decreases a.len(),
{
    if a.len() == 0 {
        true
    } else if a[0] != b[0] {
        spec_lex_le(a[0], b[0])
    } else {
        spec_lex_list_le(a.drop_first(), b.drop_first())
    }
}

/// The list order is total on equal-length lists.
pub proof fn lemma_lex_list_total(a: Seq<Seq<char>>, b: Seq<Seq<char>>)
    requires
        a.len() == b.len(),
    ensures
        spec_lex_list_le(a, b) || spec_lex_list_le(b, a),
    decreases a.len(),
{
    if a.len() == 0 {
    } else if a[0] != b[0] {
        lemma_lex_le_total(a[0], b[0]);
    } else {
        lemma_lex_list_total(a.drop_first(), b.drop_first());
    }
}

/// The list order is transitive on equal-length lists.
pub proof fn lemma_lex_list_trans(a: Seq<Seq<char>>, b: Seq<Seq<char>>, c: Seq<Seq<char>>)
    requires
        a.len() == b.len() == c.len(),
        spec_lex_list_le(a, b),
        spec_lex_list_le(b, c),
    ensures
        spec_lex_list_le(a, c),
    decreases a.len(),
{
    if a.len() == 0 {
    } else if a[0] == b[0] && b[0] == c[0] {
        lemma_lex_list_trans(a.drop_first(), b.drop_first(), c.drop_first());
    } else if a[0] != b[0] && b[0] != c[0] {
        lemma_lex_le_trans(a[0], b[0], c[0]);
        if a[0] == c[0] {
            lemma_lex_le_antisym(a[0], b[0]);
        }
    }
}

/// The order on matches: by score numerator, ties broken by the four
/// names. Within one query's results every match carries the same
/// denominator, so comparing numerators compares the scores exactly.
pub open spec fn spec_match_le(a: FuzzyMatchView, b: FuzzyMatchView) -> bool {
    if a.score_num != b.score_num {
        a.score_num < b.score_num
    } else {
        spec_lex_list_le(spec_match_keys(a), spec_match_keys(b))
    }
}

impl SpecOrdered for FuzzyMatchView {
    open spec fn le_spec(self, other: Self) -> bool {
        spec_match_le(self, other)
    }

    proof fn lemma_le_total(a: Self, b: Self) {
        lemma_lex_list_total(spec_match_keys(a), spec_match_keys(b));
    }

    proof fn lemma_le_trans(a: Self, b: Self, c: Self) {
        if a.score_num == b.score_num && b.score_num == c.score_num {
            lemma_lex_list_trans(spec_match_keys(a), spec_match_keys(b), spec_match_keys(c));
        }
    }
}

impl SpecOrdered for FuzzyMatch {
    open spec fn le_spec(self, other: Self) -> bool {
        spec_match_le(self@, other@)
    }

    proof fn lemma_le_total(a: Self, b: Self) {
        FuzzyMatchView::lemma_le_total(a@, b@);
    }

    proof fn lemma_le_trans(a: Self, b: Self, c: Self) {
        FuzzyMatchView::lemma_le_trans(a@, b@, c@);
    }
}

impl OrderedBy for FuzzyMatch {
    fn le(&self, other: &Self) -> (r: bool) {
        proof {
            reveal_with_fuel(spec_lex_list_le, 6);
            let ka = spec_match_keys(self@);
            let kb = spec_match_keys(other@);
            assert(ka.drop_first() =~= seq![
                self@.competition.name,
                self@.game.home_team,
                self@.game.away_team,
            ]);
            assert(kb.drop_first() =~= seq![
                other@.competition.name,
                other@.game.home_team,
                other@.game.away_team,
            ]);
            assert(ka.drop_first().drop_first() =~= seq![
                self@.game.home_team,
                self@.game.away_team,
            ]);
            assert(kb.drop_first().drop_first() =~= seq![
                other@.game.home_team,
                other@.game.away_team,
            ]);
            assert(ka.drop_first().drop_first().drop_first() =~= seq![self@.game.away_team]);
            assert(kb.drop_first().drop_first().drop_first() =~= seq![other@.game.away_team]);
            assert(ka.drop_first().drop_first().drop_first().drop_first() =~= Seq::<
                Seq<char>,
            >::empty());
        }
        if self.score_num != other.score_num {
            self.score_num < other.score_num
        } else if !str_eq(self.country.name.as_str(), other.country.name.as_str()) {
            str_lex_le(self.country.name.as_str(), other.country.name.as_str())
        } else if !str_eq(self.competition.name.as_str(), other.competition.name.as_str()) {
            str_lex_le(self.competition.name.as_str(), other.competition.name.as_str())
        } else if !str_eq(self.game.home_team.as_str(), other.game.home_team.as_str()) {
            str_lex_le(self.game.home_team.as_str(), other.game.home_team.as_str())
        } else if !str_eq(self.game.away_team.as_str(), other.game.away_team.as_str()) {
            str_lex_le(self.game.away_team.as_str(), other.game.away_team.as_str())
        } else {
            proof {
                crate::strutil::lemma_lex_le_total(self@.game.away_team, other@.game.away_team);
            }
            true
        }
    }
}

/// The score of a game under the whole-query fuzzy match: the best
/// distance of the pattern in the text, kept when it stays within three
/// tenths of the pattern length.
pub open spec fn spec_single_score(pattern: Seq<char>, text: Seq<char>) -> Option<usize> {
    match spec_min_dist(bitap_lev_distances(pattern, text, FUZZY_MAX_DISTANCE as int)) {
        None => None,
        Some(d) => if 10 * d <= 3 * pattern.len() {
            Some(d)
        } else {
            None
        },
    }
}

/// The entries one game contributes to the whole-query results.
pub open spec fn spec_single_entry(
    cv: CountryView,
    comp: CompetitionView,
    g: GameView,
    pattern: Seq<char>,
) -> Seq<FuzzyMatchView> {
    match spec_single_score(pattern, spec_composite(cv.name, comp.name, g)) {
        Some(d) => seq![
            FuzzyMatchView {
                score_num: d as u64,
                score_den: pattern.len() as u64,
                country: cv,
                competition: comp,
                game: g,
            },
        ],
        None => Seq::empty(),
    }
}

/// The entry function of the whole-query search.
pub open spec fn spec_single_entry_fn(pattern: Seq<char>) -> spec_fn(
    CountryView,
    CompetitionView,
    GameView,
) -> Seq<FuzzyMatchView> {
    |cv: CountryView, comp: CompetitionView, g: GameView| spec_single_entry(cv, comp, g, pattern)
}

/// The entries of one competition's games under an entry function.
pub open spec fn spec_collect_games(
    cv: CountryView,
    comp: CompetitionView,
    games: Seq<GameView>,
    e: spec_fn(CountryView, CompetitionView, GameView) -> Seq<FuzzyMatchView>,
) -> Seq<FuzzyMatchView>
    decreases games.len(),
{
    if games.len() == 0 {
        Seq::empty()
    } else {
        spec_collect_games(cv, comp, games.drop_last(), e) + e(cv, comp, games.last())
    }
}

/// The entries of one country's competitions under an entry function.
pub open spec fn spec_collect_comps(
    cv: CountryView,
    comps: Seq<CompetitionView>,
    e: spec_fn(CountryView, CompetitionView, GameView) -> Seq<FuzzyMatchView>,
) -> Seq<FuzzyMatchView>
    decreases comps.len(),
{
    if comps.len() == 0 {
        Seq::empty()
    } else {
        spec_collect_comps(cv, comps.drop_last(), e) + spec_collect_games(
            cv,
            comps.last(),
            comps.last().games,
            e,
        )
    }
}

/// The entries of the whole tree under an entry function, in tree order.
pub open spec fn spec_collect_countries(
    cs: Seq<CountryView>,
    e: spec_fn(CountryView, CompetitionView, GameView) -> Seq<FuzzyMatchView>,
) -> Seq<FuzzyMatchView>
    decreases cs.len(),
{
    if cs.len() == 0 {
        Seq::empty()
    } else {
        spec_collect_countries(cs.drop_last(), e) + spec_collect_comps(
            cs.last(),
            cs.last().competitions,
            e,
        )
    }
}

/// The whole-query fuzzy search: the matching entries sorted by score,
/// ties broken by the four names. A query whose case-folded form is not a
/// valid pattern matches nothing.
pub open spec fn spec_fuzzy_query(t: FootballView, q: Seq<char>) -> Seq<FuzzyMatchView> {
    let pattern = spec_lower(q);
    if spec_valid_pattern(pattern) {
        spec_sort_le(spec_collect_countries(t.countries, spec_single_entry_fn(pattern)))
    } else {
        Seq::empty()
    }
}

impl Football {
    /// Scores every game against the case-folded query as one pattern and
    /// returns the matches sorted by score, best first, ties broken by
    /// country, competition, home and away names.
    pub fn fuzzy_query(&self, query: &str) -> (r: Vec<FuzzyMatch>)
        ensures
            r.deep_view() == spec_fuzzy_query(self@, query@),
    {
        let patvec = lowered_chars(query);
        let ghost pattern = spec_lower(query@);
        if patvec.len() == 0 || patvec.len() >= 64 {
            let empty: Vec<FuzzyMatch> = Vec::new();
            proof {
                assert(empty.deep_view() =~= spec_fuzzy_query(self@, query@));
            }
            return empty;
        }
        let patstr = chars_to_string(&patvec);
        let ghost e = spec_single_entry_fn(spec_lower(query@));
        let mut collected: Vec<FuzzyMatch> = Vec::new();
        proof {
            assert(collected.deep_view() =~~= spec_collect_countries(self@.countries.take(0), e));
        }
        let mut i: usize = 0;
        while i < self.countries.len()
            invariant
                i <= self.countries@.len(),
                self@.countries.len() == self.countries@.len(),
                self@.countries == self.countries.deep_view(),
                pattern == spec_lower(query@),
                patstr@ == pattern,
                patvec@.len() == pattern.len(),
                spec_valid_pattern(pattern),
                e == spec_single_entry_fn(pattern),
                collected.deep_view() == spec_collect_countries(self@.countries.take(i as int), e),
            decreases self.countries@.len() - i,
        {
            let country = &self.countries[i];
            let ghost cv = self@.countries[i as int];
            proof {
                assert(cv == country@);
            }
            let mut j: usize = 0;
            proof {
                assert(collected.deep_view() + spec_collect_comps(cv, cv.competitions.take(0), e)
                    =~~= collected.deep_view());
            }
            let ghost base_i = collected.deep_view();
            while j < country.competitions.len()
                invariant
                    j <= country.competitions@.len(),
                    cv == country@,
                    cv.competitions.len() == country.competitions@.len(),
                    cv.competitions == country.competitions.deep_view(),
                    pattern == spec_lower(query@),
                    patstr@ == pattern,
                    patvec@.len() == pattern.len(),
                    spec_valid_pattern(pattern),
                    e == spec_single_entry_fn(pattern),
                    collected.deep_view() == base_i + spec_collect_comps(
                        cv,
                        cv.competitions.take(j as int),
                        e,
                    ),
                decreases country.competitions@.len() - j,
            {
                let competition = &country.competitions[j];
                let ghost compv = cv.competitions[j as int];
                proof {
                    assert(compv == competition@);
                }
                let mut k: usize = 0;
                let ghost base_j = collected.deep_view();
                proof {
                    assert(collected.deep_view() + spec_collect_games(
                        cv,
                        compv,
                        compv.games.take(0),
                        e,
                    ) =~~= collected.deep_view());
                }
                while k < competition.games.len()
                    invariant
                        k <= competition.games@.len(),
                        cv == country@,
                        compv == competition@,
                        compv.games.len() == competition.games@.len(),
                        compv.games == competition.games.deep_view(),
                        pattern == spec_lower(query@),
                        patstr@ == pattern,
                        patvec@.len() == pattern.len(),
                        spec_valid_pattern(pattern),
                        e == spec_single_entry_fn(pattern),
                        collected.deep_view() == base_j + spec_collect_games(
                            cv,
                            compv,
                            compv.games.take(k as int),
                            e,
                        ),
                    decreases competition.games@.len() - k,
                {
                    let game = &competition.games[k];
                    let ghost gv = compv.games[k as int];
                    proof {
                        assert(gv == game@);
                        assert(compv.games.take(k + 1).drop_last() =~= compv.games.take(k as int));
                        assert(compv.games.take(k + 1).last() == gv);
                    }
                    let text = chars_to_string(
                        &composite_chars(country.name.as_str(), competition.name.as_str(), game),
                    );
                    let dists = match bitap_lev(patstr.as_str(), text.as_str(), FUZZY_MAX_DISTANCE) {
                        Some(v) => v,
                        None => Vec::new(),
                    };
                    let best = min_dist(&dists);
                    let ghost oldc = collected.deep_view();
                    match best {
                        Some(d) => {
                            if 10 * (d as u128) <= 3 * (patvec.len() as u128) {
                                let entry = FuzzyMatch {
                                    score_num: d as u64,
                                    score_den: patvec.len() as u64,
                                    country: country.clone(),
                                    competition: competition.clone(),
                                    game: game.clone(),
                                };
                                proof {
                                    assert(e(cv, compv, gv) == spec_single_entry(
                                        cv,
                                        compv,
                                        gv,
                                        pattern,
                                    ));
                                    assert(entry@ =~~= e(cv, compv, gv)[0]);
                                }
                                collected.push(entry);
                                proof {
                                    assert(forall|q: int|
                                        0 <= q < oldc.len()
                                            ==> #[trigger] collected.deep_view()[q] == oldc[q]);
                                    assert(collected.deep_view()[oldc.len() as int] == entry@);
                                    assert(collected.deep_view() =~~= base_j + spec_collect_games(
                                        cv,
                                        compv,
                                        compv.games.take(k + 1),
                                        e,
                                    ));
                                }
                            } else {
                                proof {
                                    assert(e(cv, compv, gv) == spec_single_entry(
                                        cv,
                                        compv,
                                        gv,
                                        pattern,
                                    ));
                                    assert(collected.deep_view() =~~= base_j + spec_collect_games(
                                        cv,
                                        compv,
                                        compv.games.take(k + 1),
                                        e,
                                    ));
                                }
                            }
                        },
                        None => {
                            proof {
                                assert(e(cv, compv, gv) == spec_single_entry(cv, compv, gv, pattern));
                                assert(collected.deep_view() =~~= base_j + spec_collect_games(
                                    cv,
                                    compv,
                                    compv.games.take(k + 1),
                                    e,
                                ));
                            }
                        },
                    }
                    k = k + 1;
                }
                proof {
                    assert(compv.games.take(compv.games.len() as int) =~= compv.games);
                    assert(cv.competitions.take(j + 1).drop_last() =~= cv.competitions.take(
                        j as int,
                    ));
                    assert(cv.competitions.take(j + 1).last() == compv);
                    assert(collected.deep_view() =~~= base_i + spec_collect_comps(
                        cv,
                        cv.competitions.take(j + 1),
                        e,
                    ));
                }
                j = j + 1;
            }
            proof {
                assert(cv.competitions.take(cv.competitions.len() as int) =~= cv.competitions);
                assert(self@.countries.take(i + 1).drop_last() =~= self@.countries.take(i as int));
                assert(self@.countries.take(i + 1).last() == cv);
                assert(collected.deep_view() =~~= spec_collect_countries(
                    self@.countries.take(i + 1),
                    e,
                ));
            }
            i = i + 1;
        }
        proof {
            assert(self@.countries.take(self@.countries.len() as int) =~= self@.countries);
        }
        let ghost collected_seq = collected@;
        let sorted = insertion_sort(collected);
        proof {
            assert(forall|a: FuzzyMatch, b: FuzzyMatch| #[trigger]
                a.le_spec(b) == a.deep_view().le_spec(b.deep_view()));
            crate::sorting::lemma_sort_le_views(collected_seq);
            assert(views_of(collected_seq) =~~= spec_collect_countries(self@.countries, e));
            assert(sorted.deep_view() =~~= views_of(spec_sort_le(collected_seq)));
            assert(sorted.deep_view() =~~= spec_fuzzy_query(self@, query@));
        }
        sorted
    }
}

/// The mean per-word score of a game under the mixed query, in
/// thousandths of a unit, summed over the words: every word must be a
/// valid pattern and must match within forty-five hundredths of its own
/// length, else the game is excluded.
pub open spec fn spec_mixed_score(words: Seq<Seq<char>>, text: Seq<char>) -> Option<int>
    decreases words.len(),
{
    if words.len() == 0 {
        Some(0)
    } else {
        match spec_mixed_score(words.drop_last(), text) {
            None => None,
            Some(s) => {
                let w = words.last();
                if !spec_valid_pattern(w) {
                    None
                } else {
                    match spec_min_dist(bitap_lev_distances(w, text, FUZZY_MAX_DISTANCE as int)) {
                        None => None,
                        Some(d) => if 100 * d <= 45 * w.len() {
                            Some(s + 1000 * d / w.len() as int)
                        } else {
                            None
                        },
                    }
                }
            },
        }
    }
}

/// The entries one game contributes to the mixed-query results: the sum of
/// its per-word scores over the denominator a thousand times the word
/// count.
pub open spec fn spec_mixed_entry(
    cv: CountryView,
    comp: CompetitionView,
    g: GameView,
    words: Seq<Seq<char>>,
) -> Seq<FuzzyMatchView> {
    match spec_mixed_score(words, spec_composite(cv.name, comp.name, g)) {
        Some(s) => seq![
            FuzzyMatchView {
                score_num: s as u64,
                score_den: (1000 * words.len()) as u64,
                country: cv,
                competition: comp,
                game: g,
            },
        ],
        None => Seq::empty(),
    }
}

/// The entry function of the mixed-query search.
pub open spec fn spec_mixed_entry_fn(words: Seq<Seq<char>>) -> spec_fn(
    CountryView,
    CompetitionView,
    GameView,
) -> Seq<FuzzyMatchView> {
    |cv: CountryView, comp: CompetitionView, g: GameView| spec_mixed_entry(cv, comp, g, words)
}

/// The mixed-query fuzzy search: every word of the query must match each
/// kept game; kept games carry the mean of their per-word scores and come
/// back sorted by it, ties broken by the four names. A query with no
/// letter runs matches nothing.
pub open spec fn spec_mixed_query(t: FootballView, q: Seq<char>) -> Seq<FuzzyMatchView> {
    let words = spec_tokens(q);
    if words.len() == 0 {
        Seq::empty()
    } else {
        spec_sort_le(spec_collect_countries(t.countries, spec_mixed_entry_fn(words)))
    }
}

/// A least distance is one of the distances.
proof fn lemma_min_dist_element(ds: Seq<usize>)
    ensures
        spec_min_dist(ds) matches Some(d) ==> ds.contains(d),
    decreases ds.len(),
{
    if ds.len() > 0 {
        lemma_min_dist_element(ds.drop_last());
        match spec_min_dist(ds) {
            Some(d) => {
                if ds.drop_last().contains(d) {
                    let i = choose|i: int|
                        0 <= i < ds.drop_last().len() && ds.drop_last()[i] == d;
                    assert(ds[i] == d);
                } else {
                    assert(ds[ds.len() - 1] == d);
                }
            },
            None => {},
        }
    }
}

/// A kept score stays within the per-word bound times the word count.
proof fn lemma_mixed_score_bounds(words: Seq<Seq<char>>, text: Seq<char>)
    ensures
        spec_mixed_score(words, text) matches Some(s) ==> 0 <= s <= 450 * words.len(),
    decreases words.len(),
{
    if words.len() > 0 {
        lemma_mixed_score_bounds(words.drop_last(), text);
        match spec_mixed_score(words, text) {
            Some(s) => {
                let w = words.last();
                let d = spec_min_dist(
                    bitap_lev_distances(w, text, FUZZY_MAX_DISTANCE as int),
                )->Some_0;
                assert(1000 * d / w.len() as int <= 450 && 1000 * d / w.len() as int
                    >= 0) by (nonlinear_arith)
                    requires
                        100 * d <= 45 * w.len(),
                        w.len() >= 1,
                        d >= 0,
                ;
            },
            None => {},
        }
    }
}

/// A failed prefix fails the whole word list.
proof fn lemma_mixed_score_none(words: Seq<Seq<char>>, text: Seq<char>, i: int)
    requires
        0 <= i <= words.len(),
        spec_mixed_score(words.take(i), text) is None,
    ensures
        spec_mixed_score(words, text) is None,
    decreases words.len() - i,
{
    if i == words.len() {
        assert(words.take(i) =~= words);
    } else {
        assert(words.take(i + 1).drop_last() =~= words.take(i));
        lemma_mixed_score_none(words, text, i + 1);
    }
}

/// The summed per-word score of one game's composite text, when every
/// word matches.
fn mixed_game_score(word_strs: &Vec<String>, text: &str) -> (r: Option<u64>)
    requires
        word_strs@.len() <= 0xffff_ffff,
    ensures
        spec_mixed_score(word_strs.deep_view(), text@) matches Some(s) ==> r == Some(s as u64),
        spec_mixed_score(word_strs.deep_view(), text@) is None ==> r is None,
{
    let ghost words = word_strs.deep_view();
    let mut sum: u64 = 0;
    let mut i: usize = 0;
    proof {
        assert(words.take(0) =~= Seq::<Seq<char>>::empty());
    }
    while i < word_strs.len()
        invariant
            i <= word_strs@.len() <= 0xffff_ffff,
            words == word_strs.deep_view(),
            words.len() == word_strs@.len(),
            sum <= 450 * i,
            spec_mixed_score(words.take(i as int), text@) == Some(sum as int),
        decreases word_strs@.len() - i,
    {
        let w = &word_strs[i];
        let ghost wv = words[i as int];
        proof {
            assert(wv == word_strs@[i as int]@);
            assert(words.take(i + 1).drop_last() =~= words.take(i as int));
            assert(words.take(i + 1).last() == wv);
        }
        let dists = match bitap_lev(w.as_str(), text, FUZZY_MAX_DISTANCE) {
            Some(v) => v,
            None => {
                proof {
                    lemma_mixed_score_none(words, text@, i + 1);
                }
                return None;
            },
        };
        let best = match min_dist(&dists) {
            Some(d) => d,
            None => {
                proof {
                    lemma_mixed_score_none(words, text@, i + 1);
                }
                return None;
            },
        };
        let wlen = w.unicode_len();
        if 100 * (best as u128) > 45 * (wlen as u128) {
            proof {
                lemma_mixed_score_none(words, text@, i + 1);
            }
            return None;
        }
        proof {
            lemma_min_dist_element(dists@);
            assert(best <= wv.len());
            assert(1000 * (best as int) / wv.len() as int <= 450 && 1000 * (best as int)
                / wv.len() as int >= 0) by (nonlinear_arith)
                requires
                    100 * (best as int) <= 45 * wv.len(),
                    wv.len() >= 1,
                    best >= 0,
            ;
        }
        let milli: u64 = (1000 * (best as u64)) / (wlen as u64);
        sum = sum + milli;
        i = i + 1;
    }
    proof {
        assert(words.take(words.len() as int) =~= words);
    }
    Some(sum)
}

impl Football {
    /// Scores every game against each word of the query independently and
    /// keeps the games that every word matches, with the mean of the
    /// per-word scores; the matches come back sorted by score, best first,
    /// ties broken by country, competition, home and away names. The query
    /// length bound keeps the accumulated scores within machine range.
    pub fn mixed_query(&self, query: &str) -> (r: Vec<FuzzyMatch>)
        requires
            query@.len() <= 0xffff_ffff,
        ensures
            r.deep_view() == spec_mixed_query(self@, query@),
    {
        let words = tokenize(query);
        let ghost wvs = spec_tokens(query@);
        proof {
            crate::strutil::lemma_tokens_len(query@);
        }
        if words.len() == 0 {
            let empty: Vec<FuzzyMatch> = Vec::new();
            proof {
                assert(empty.deep_view() =~= spec_mixed_query(self@, query@));
            }
            return empty;
        }
        let mut word_strs: Vec<String> = Vec::new();
        let mut wi: usize = 0;
        while wi < words.len()
            invariant
                wi <= words@.len(),
                words.deep_view() == wvs,
                word_strs@.len() == wi,
                forall|k: int| 0 <= k < wi ==> #[trigger] word_strs@[k]@ == wvs[k],
            decreases words@.len() - wi,
        {
            word_strs.push(chars_to_string(&words[wi]));
            proof {
                assert(words.deep_view()[wi as int] == words@[wi as int]@);
            }
            wi = wi + 1;
        }
        proof {
            assert(word_strs.deep_view() =~~= wvs);
        }
        let ghost e = spec_mixed_entry_fn(wvs);
        let den: u64 = 1000 * (words.len() as u64);
        proof {
            assert(den == (1000 * wvs.len()) as u64);
        }
        let mut collected: Vec<FuzzyMatch> = Vec::new();
        proof {
            assert(collected.deep_view() =~~= spec_collect_countries(self@.countries.take(0), e));
        }
        let mut i: usize = 0;
        while i < self.countries.len()
            invariant
                i <= self.countries@.len(),
                self@.countries.len() == self.countries@.len(),
                self@.countries == self.countries.deep_view(),
                wvs == spec_tokens(query@),
                word_strs.deep_view() == wvs,
                word_strs@.len() == wvs.len() <= 0xffff_ffff,
                den == (1000 * wvs.len()) as u64,
                wvs.len() > 0,
                e == spec_mixed_entry_fn(wvs),
                collected.deep_view() == spec_collect_countries(self@.countries.take(i as int), e),
            decreases self.countries@.len() - i,
        {
            let country = &self.countries[i];
            let ghost cv = self@.countries[i as int];
            proof {
                assert(cv == country@);
            }
            let mut j: usize = 0;
            proof {
                assert(collected.deep_view() + spec_collect_comps(cv, cv.competitions.take(0), e)
                    =~~= collected.deep_view());
            }
            let ghost base_i = collected.deep_view();
            while j < country.competitions.len()
                invariant
                    j <= country.competitions@.len(),
                    cv == country@,
                    cv.competitions.len() == country.competitions@.len(),
                    cv.competitions == country.competitions.deep_view(),
                    wvs == spec_tokens(query@),
                    word_strs.deep_view() == wvs,
                    word_strs@.len() == wvs.len() <= 0xffff_ffff,
                    den == (1000 * wvs.len()) as u64,
                    wvs.len() > 0,
                    e == spec_mixed_entry_fn(wvs),
                    collected.deep_view() == base_i + spec_collect_comps(
                        cv,
                        cv.competitions.take(j as int),
                        e,
                    ),
                decreases country.competitions@.len() - j,
            {
                let competition = &country.competitions[j];
                let ghost compv = cv.competitions[j as int];
                proof {
                    assert(compv == competition@);
                }
                let mut k: usize = 0;
                let ghost base_j = collected.deep_view();
                proof {
                    assert(collected.deep_view() + spec_collect_games(
                        cv,
                        compv,
                        compv.games.take(0),
                        e,
                    ) =~~= collected.deep_view());
                }
                while k < competition.games.len()
                    invariant
                        k <= competition.games@.len(),
                        cv == country@,
                        compv == competition@,
                        compv.games.len() == competition.games@.len(),
                        compv.games == competition.games.deep_view(),
                        wvs == spec_tokens(query@),
                        word_strs.deep_view() == wvs,
                        word_strs@.len() == wvs.len() <= 0xffff_ffff,
                        den == (1000 * wvs.len()) as u64,
                        wvs.len() > 0,
                        e == spec_mixed_entry_fn(wvs),
                        collected.deep_view() == base_j + spec_collect_games(
                            cv,
                            compv,
                            compv.games.take(k as int),
                            e,
                        ),
                    decreases competition.games@.len() - k,
                {
                    let game = &competition.games[k];
                    let ghost gv = compv.games[k as int];
                    proof {
                        assert(gv == game@);
                        assert(compv.games.take(k + 1).drop_last() =~= compv.games.take(k as int));
                        assert(compv.games.take(k + 1).last() == gv);
                        assert(e(cv, compv, gv) == spec_mixed_entry(cv, compv, gv, wvs));
                    }
                    let text = chars_to_string(
                        &composite_chars(country.name.as_str(), competition.name.as_str(), game),
                    );
                    let ghost oldc = collected.deep_view();
                    match mixed_game_score(&word_strs, text.as_str()) {
                        Some(sum) => {
                            let entry = FuzzyMatch {
                                score_num: sum,
                                score_den: den,
                                country: country.clone(),
                                competition: competition.clone(),
                                game: game.clone(),
                            };
                            proof {
                                assert(entry@ =~~= e(cv, compv, gv)[0]);
                            }
                            collected.push(entry);
                            proof {
                                assert(forall|q: int|
                                    0 <= q < oldc.len() ==> #[trigger] collected.deep_view()[q]
                                        == oldc[q]);
                                assert(collected.deep_view()[oldc.len() as int] == entry@);
                                assert(collected.deep_view() =~~= base_j + spec_collect_games(
                                    cv,
                                    compv,
                                    compv.games.take(k + 1),
                                    e,
                                ));
                            }
                        },
                        None => {
                            proof {
                                assert(collected.deep_view() =~~= base_j + spec_collect_games(
                                    cv,
                                    compv,
                                    compv.games.take(k + 1),
                                    e,
                                ));
                            }
                        },
                    }
                    k = k + 1;
                }
                proof {
                    assert(compv.games.take(compv.games.len() as int) =~= compv.games);
                    assert(cv.competitions.take(j + 1).drop_last() =~= cv.competitions.take(
                        j as int,
                    ));
                    assert(cv.competitions.take(j + 1).last() == compv);
                    assert(collected.deep_view() =~~= base_i + spec_collect_comps(
                        cv,
                        cv.competitions.take(j + 1),
                        e,
                    ));
                }
                j = j + 1;
            }
            proof {
                assert(cv.competitions.take(cv.competitions.len() as int) =~= cv.competitions);
                assert(self@.countries.take(i + 1).drop_last() =~= self@.countries.take(i as int));
                assert(self@.countries.take(i + 1).last() == cv);
                assert(collected.deep_view() =~~= spec_collect_countries(
                    self@.countries.take(i + 1),
                    e,
                ));
            }
            i = i + 1;
        }
        proof {
            assert(self@.countries.take(self@.countries.len() as int) =~= self@.countries);
        }
        let ghost collected_seq = collected@;
        let sorted = insertion_sort(collected);
        proof {
            assert(forall|a: FuzzyMatch, b: FuzzyMatch| #[trigger]
                a.le_spec(b) == a.deep_view().le_spec(b.deep_view()));
            crate::sorting::lemma_sort_le_views(collected_seq);
            assert(views_of(collected_seq) =~~= spec_collect_countries(self@.countries, e));
            assert(sorted.deep_view() =~~= views_of(spec_sort_le(collected_seq)));
            assert(sorted.deep_view() =~~= spec_mixed_query(self@, query@));
        }
        sorted
    }
}

/// Identical data and query give identical matches, in score and in
/// order: the result is a function of the tree's and the query's views
/// alone, which the contracts of the two searches pin down.
pub proof fn lemma_fuzzy_query_deterministic(
    t1: FootballView,
    q1: Seq<char>,
    t2: FootballView,
    q2: Seq<char>,
)
    requires
        t1 == t2,
        q1 == q2,
    ensures
        spec_fuzzy_query(t1, q1) == spec_fuzzy_query(t2, q2),
        spec_mixed_query(t1, q1) == spec_mixed_query(t2, q2),
{
}

/// The matches of a whole-query search come back sorted: by score first,
/// ties broken by the four names.
pub proof fn lemma_fuzzy_query_sorted(t: FootballView, q: Seq<char>)
    ensures
        crate::sorting::spec_sorted_le(spec_fuzzy_query(t, q)),
{
    if spec_valid_pattern(spec_lower(q)) {
        crate::sorting::lemma_sort_le_ensures(
            spec_collect_countries(t.countries, spec_single_entry_fn(spec_lower(q))),
        );
    }
}

/// The matches of a mixed-query search come back sorted: by score first,
/// ties broken by the four names.
pub proof fn lemma_mixed_query_sorted(t: FootballView, q: Seq<char>)
    ensures
        crate::sorting::spec_sorted_le(spec_mixed_query(t, q)),
{
    if spec_tokens(q).len() > 0 {
        crate::sorting::lemma_sort_le_ensures(
            spec_collect_countries(t.countries, spec_mixed_entry_fn(spec_tokens(q))),
        );
    }
}

} // verus!
