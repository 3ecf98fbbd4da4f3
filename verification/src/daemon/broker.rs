//! Gathers the candidates of the providers and chooses among them.
use vstd::prelude::*;
use crate::config::CdFallbackMode;
use crate::distinct;
use crate::distinct::Labelled;
use crate::order;
use crate::order::Weighted;
use crate::plugin;
use crate::plugin::cd_assist::CdAssistPlugin;
use crate::plugin::cwd_history::CwdHistoryPlugin;
use crate::plugin::history::HistoryPlugin;
use crate::plugin::path::{MemoryCacheEntry, PathPlugin};
use crate::plugin::{InlineProvider, SuggestionCandidate, SuggestionRequest};
use crate::ranking;
use crate::text;

verus! {

/// How the providers and the choice are set up.
#[derive(Debug, Clone, Copy, PartialEq, Eq, Structural)]
pub struct BrokerOptions {
    pub path_show_hidden: bool,
    pub path_max_entries: usize,
    pub max_candidates: usize,
    pub cd_fallback_mode: CdFallbackMode,
}

/// The providers, and how many candidates are chosen.
pub struct Broker {
    pub history: HistoryPlugin,
    pub cwd_history: CwdHistoryPlugin,
    pub path: PathPlugin,
    pub cd_assist: CdAssistPlugin,
    pub max_candidates: usize,
}

/// The scored candidates of each provider.
#[derive(Debug, Clone)]
pub struct ProvidedCandidates {
    pub history: Vec<SuggestionCandidate>,
    pub cwd_history: Vec<SuggestionCandidate>,
    pub path: Vec<SuggestionCandidate>,
    pub cd_assist: Vec<SuggestionCandidate>,
}

impl Labelled for SuggestionCandidate {
    open spec fn label(self) -> Seq<char> {
        self.text@
    }

    fn label_text(&self) -> (r: String) {
        self.text.clone()
    }
}

/// The candidates of a provider, if it is asked.
pub open spec fn if_asked(
    asked: bool,
    candidates: Vec<SuggestionCandidate>,
) -> Seq<SuggestionCandidate> {
    if asked {
        candidates@
    } else {
        Seq::empty()
    }
}

/// The candidates of the providers that handle the request, in the order of
/// the providers.
pub open spec fn gathered(
    broker: Broker,
    req: SuggestionRequest,
    provided: ProvidedCandidates,
) -> Seq<SuggestionCandidate> {
    if_asked(broker.history.handles(req), provided.history) + if_asked(
        broker.cwd_history.handles(req),
        provided.cwd_history,
    ) + if_asked(broker.path.handles(req), provided.path) + if_asked(
        broker.cd_assist.handles(req),
        provided.cd_assist,
    )
}

/// The choice: no dangerous command with a low score, the best first, each
/// text once, and at most `max`.
pub open spec fn chosen(all: Seq<SuggestionCandidate>, max: usize) -> Seq<SuggestionCandidate> {
    order::up_to(
        distinct::first_of_each(order::ranked(ranking::trusted_only(all))),
        max as int,
    )
}

impl Broker {
    pub fn new(options: BrokerOptions) -> (r: Self)
        ensures
            r.path.wf(),
            r.path.cache() == Map::<Seq<char>, MemoryCacheEntry>::empty(),
            r.path.shows_hidden() == options.path_show_hidden,
            r.path.bound() == options.path_max_entries,
            r.cd_assist.fallback() == options.cd_fallback_mode,
            r.max_candidates == options.max_candidates,
    {
        Broker {
            history: HistoryPlugin::new(),
            cwd_history: CwdHistoryPlugin::new(),
            path: PathPlugin::new(options.path_show_hidden, options.path_max_entries),
            cd_assist: CdAssistPlugin::new(options.cd_fallback_mode),
            max_candidates: options.max_candidates,
        }
    }

    /// Chooses among the candidates of the providers.
    pub fn suggest(&self, req: &SuggestionRequest, provided: ProvidedCandidates) -> (r: Vec<
        SuggestionCandidate,
    >)
        ensures
            r@ == chosen(gathered(*self, *req, provided), self.max_candidates),
    {
        let mut provided = provided;
        let mut all: Vec<SuggestionCandidate> = Vec::new();
        let ghost empty = Seq::<SuggestionCandidate>::empty();
        let ghost a = if_asked(self.history.handles(*req), provided.history);
        let ghost b = if_asked(self.cwd_history.handles(*req), provided.cwd_history);
        let ghost c = if_asked(self.path.handles(*req), provided.path);
        let ghost d = if_asked(self.cd_assist.handles(*req), provided.cd_assist);
        if self.history.supports(req) {
            all.append(&mut provided.history);
        }
        assert(all@ =~= a);
        if self.cwd_history.supports(req) {
            all.append(&mut provided.cwd_history);
        }
        assert(all@ =~= a + b);
        if self.path.supports(req) {
            all.append(&mut provided.path);
        }
        assert(all@ =~= a + b + c);
        if self.cd_assist.supports(req) {
            all.append(&mut provided.cd_assist);
        }
        assert(all@ =~= a + b + c + d);
        ranking::apply_dangerous_filter(&mut all);
        let best_first = order::sorted_by_weight(all);
        let mut r = distinct::without_repeats(best_first);
        r.truncate(self.max_candidates);
        r
    }
}

// --------------------------------------------------------------------- laws

proof fn lemma_first_of_each_descending<T: Labelled + Weighted>(s: Seq<T>)
    requires
        order::descending(s),
    ensures
        order::descending(distinct::first_of_each(s)),
    decreases s.len(),
{
    if s.len() > 0 {
        let before = s.drop_last();
        let rest = distinct::first_of_each(before);
        let r = distinct::first_of_each(s);
        assert forall|i: int, j: int| 0 <= i <= j < before.len() implies before[i].weight()
            >= before[j].weight() by {
            assert(s[i].weight() >= s[j].weight());
        }
        lemma_first_of_each_descending(before);
        assert forall|i: int, j: int| 0 <= i <= j < r.len() implies r[i].weight()
            >= r[j].weight() by {
            if i < rest.len() && j == rest.len() {
                distinct::law_result_is_first(before, i);
                let k = choose|k: int| #[trigger]
                    distinct::is_first(before, k) && before[k] == rest[i];
                assert(s[k].weight() >= s[s.len() - 1].weight());
            } else if j < rest.len() {
                assert(rest[i].weight() >= rest[j].weight());
            }
        }
    }
}

/// No more candidates are chosen than are wanted.
pub proof fn law_choice_is_bounded(all: Seq<SuggestionCandidate>, max: usize)
    ensures
        chosen(all, max).len() <= max,
{
}

/// No text is suggested twice.
pub proof fn law_choice_has_no_repeats(all: Seq<SuggestionCandidate>, max: usize)
    ensures
        forall|i: int, j: int|
            0 <= i < j < chosen(all, max).len() ==> (#[trigger] chosen(all, max)[i]).text@ != (
            #[trigger] chosen(all, max)[j]).text@,
{
    let s = order::ranked(ranking::trusted_only(all));
    distinct::law_no_repeats(s);
    let r = chosen(all, max);
    assert forall|i: int, j: int| 0 <= i < j < r.len() implies (#[trigger] r[i]).text@ != (
    #[trigger] r[j]).text@ by {
        assert(distinct::first_of_each(s)[i].label() != distinct::first_of_each(s)[j].label());
    }
}

/// The candidates come from the best to the worst.
pub proof fn law_choice_is_best_first(all: Seq<SuggestionCandidate>, max: usize)
    ensures
        forall|i: int, j: int|
            0 <= i <= j < chosen(all, max).len() ==> (#[trigger] chosen(all, max)[i]).score.level()
                >= (#[trigger] chosen(all, max)[j]).score.level(),
{
    let s = order::ranked(ranking::trusted_only(all));
    order::law_ranked_descending(ranking::trusted_only(all));
    lemma_first_of_each_descending(s);
    let r = chosen(all, max);
    assert forall|i: int, j: int| 0 <= i <= j < r.len() implies (#[trigger] r[i]).score.level() >= (
    #[trigger] r[j]).score.level() by {
        assert(distinct::first_of_each(s)[i].weight() >= distinct::first_of_each(s)[j].weight());
    }
}

proof fn lemma_ranked_contains(s: Seq<SuggestionCandidate>, c: SuggestionCandidate)
    ensures
        order::ranked(s).contains(c) <==> s.contains(c),
{
    broadcast use vstd::seq_lib::group_to_multiset_ensures;

    order::law_ranked_same_items(s);
    assert(order::ranked(s).to_multiset().count(c) == s.to_multiset().count(c));
}

/// What is chosen was provided, and no dangerous command with a low score is.
pub proof fn law_choice_is_safe(all: Seq<SuggestionCandidate>, max: usize, i: int)
    requires
        0 <= i < chosen(all, max).len(),
    ensures
        all.contains(chosen(all, max)[i]),
        ranking::trusted(chosen(all, max)[i]),
{
    let kept = ranking::trusted_only(all);
    let s = order::ranked(kept);
    let c = chosen(all, max)[i];
    distinct::law_result_is_first(s, i);
    assert(s.contains(c));
    lemma_ranked_contains(kept, c);
    let k = choose|k: int| 0 <= k < kept.len() && kept[k] == c;
    all.lemma_filter_pred(ranking::is_trusted(), k);
    all.lemma_filter_contains_rev(ranking::is_trusted(), c);
}

/// The text of every safe candidate is chosen with a score that is at least as
/// high, unless as many candidates as are wanted are chosen that score at
/// least as high.
pub proof fn law_choice_misses_nothing_better(
    all: Seq<SuggestionCandidate>,
    max: usize,
    c: SuggestionCandidate,
)
    requires
        all.contains(c),
        ranking::trusted(c),
    ensures
        (exists|i: int|
            0 <= i < chosen(all, max).len() && (#[trigger] chosen(all, max)[i]).text@ == c.text@
                && chosen(all, max)[i].score.level() >= c.score.level()) || (chosen(all, max).len()
            == max && forall|i: int|
            0 <= i < chosen(all, max).len() ==> (#[trigger] chosen(all, max)[i]).score.level()
                >= c.score.level()),
{
    let kept = ranking::trusted_only(all);
    let s = order::ranked(kept);
    let each = distinct::first_of_each(s);
    let r = chosen(all, max);
    let n = choose|n: int| 0 <= n < all.len() && all[n] == c;
    all.lemma_filter_contains(ranking::is_trusted(), n);
    lemma_ranked_contains(kept, c);
    let m = choose|m: int| 0 <= m < s.len() && s[m] == c;
    order::law_ranked_descending(kept);
    lemma_first_of_each_descending(s);
    assert(s[m].label() == c.text@);
    distinct::law_same_labels(s, c.text@);
    let e = choose|e: int| 0 <= e < each.len() && (#[trigger] each[e]).label() == c.text@;
    distinct::law_result_is_first(s, e);
    let k = choose|k: int| #[trigger] distinct::is_first(s, k) && s[k] == each[e];
    if k > m {
        assert(s[m].label() != s[k].label());
    }
    assert(s[k].weight() >= s[m].weight());
    if e < max {
        assert(r[e] == each[e]);
        assert(r[e].text@ == c.text@ && r[e].score.level() >= c.score.level());
    } else {
        assert(r.len() == max);
        assert forall|i: int| 0 <= i < r.len() implies (#[trigger] r[i]).score.level()
            >= c.score.level() by {
            assert(r[i] == each[i]);
            assert(each[i].weight() >= each[e].weight());
        }
    }
}

/// For `cd`, the history of other directories has no say: the history provider
/// is not asked.
pub proof fn law_cd_ignores_history(
    broker: Broker,
    req: SuggestionRequest,
    a: ProvidedCandidates,
    b: ProvidedCandidates,
)
    requires
        ranking::first_word(req.buffer@) == Some("cd"@),
        a.cwd_history == b.cwd_history,
        a.path == b.path,
        a.cd_assist == b.cd_assist,
    ensures
        gathered(broker, req, a) == gathered(broker, req, b),
{
}

/// An empty command line gets no suggestion.
pub proof fn law_empty_line_gets_nothing(
    broker: Broker,
    req: SuggestionRequest,
    provided: ProvidedCandidates,
)
    requires
        req.buffer@.len() == 0,
    ensures
        chosen(gathered(broker, req, provided), broker.max_candidates).len() == 0,
{
    reveal(Seq::filter);
    let none = Seq::<SuggestionCandidate>::empty();
    assert(text::words(req.buffer@).len() == 0);
    assert(gathered(broker, req, provided) =~= none);
    assert(ranking::trusted_only(none) =~= none);
    assert(order::ranked(none) =~= none);
    assert(distinct::first_of_each(none) =~= none);
}

/// Every provider that is asked is heard, whatever the others have to say. Each
/// of its candidates is suggested with a score that is at least as high, unless
/// as many suggestions as are wanted score at least as high, or it is an `rm`,
/// `cp` or `mv` with a score below 0.6. The history is asked for every line but
/// those of `cd`, the history of the directory for every line.
pub proof fn law_every_provider_is_heard(
    broker: Broker,
    req: SuggestionRequest,
    provided: ProvidedCandidates,
    from: Seq<SuggestionCandidate>,
    c: SuggestionCandidate,
)
    requires
        req.buffer@.len() > 0,
        ({
            let words = text::words(req.buffer@);
            ||| from == provided.history@ && !(words.len() > 0 && words[0] == "cd"@)
            ||| from == provided.cwd_history@
            ||| from == provided.path@ && broker.path.handles(req)
            ||| from == provided.cd_assist@ && broker.cd_assist.handles(req)
        }),
        from.contains(c),
        ({
            let words = text::words(c.text@);
            let bits = c.score.bits;
            ||| words.len() == 0
            ||| words[0] != "rm"@ && words[0] != "cp"@ && words[0] != "mv"@
            ||| 0x3F19_999A <= bits < 0x8000_0000
            ||| bits > 0xFF80_0000
        }),
    ensures
        ({
            let r = chosen(gathered(broker, req, provided), broker.max_candidates);
            ||| exists|i: int|
                0 <= i < r.len() && (#[trigger] r[i]).text@ == c.text@ && r[i].score.level()
                    >= c.score.level()
            ||| r.len() == broker.max_candidates && forall|i: int|
                0 <= i < r.len() ==> (#[trigger] r[i]).score.level() >= c.score.level()
        }),
{
    let all = gathered(broker, req, provided);
    let a = if_asked(broker.history.handles(req), provided.history);
    let b = if_asked(broker.cwd_history.handles(req), provided.cwd_history);
    let p = if_asked(broker.path.handles(req), provided.path);
    let d = if_asked(broker.cd_assist.handles(req), provided.cd_assist);
    assert(all == a + b + p + d);
    let k = choose|k: int| 0 <= k < from.len() && from[k] == c;
    if from == a {
        assert(all[k] == c);
    } else if from == b {
        assert(all[a.len() + k] == c);
    } else if from == p {
        assert(all[a.len() + b.len() + k] == c);
    } else {
        assert(all[a.len() + b.len() + p.len() + k] == c);
    }
    ranking::law_dangerous_need_more(Seq::empty(), c);
    law_choice_misses_nothing_better(all, broker.max_candidates, c);
}

/// Nothing is suggested that no provider had, and an `rm`, `cp` or `mv` only
/// with a score of at least 0.6, where its score is a number. A line of `cd`
/// gets nothing from the history at large.
pub proof fn law_only_what_was_provided(
    broker: Broker,
    req: SuggestionRequest,
    provided: ProvidedCandidates,
    i: int,
)
    requires
        0 <= i < chosen(gathered(broker, req, provided), broker.max_candidates).len(),
    ensures
        ({
            let c = chosen(gathered(broker, req, provided), broker.max_candidates)[i];
            let line = text::words(req.buffer@);
            let words = text::words(c.text@);
            let bits = c.score.bits;
            let dangerous = words.len() > 0 && (words[0] == "rm"@ || words[0] == "cp"@ || words[0]
                == "mv"@);
            &&& {
                ||| provided.history@.contains(c) && !(line.len() > 0 && line[0] == "cd"@)
                ||| provided.cwd_history@.contains(c)
                ||| provided.path@.contains(c) && broker.path.handles(req)
                ||| provided.cd_assist@.contains(c) && broker.cd_assist.handles(req)
            }
            &&& dangerous && c.score.is_number() ==> 0x3F19_999A <= bits <= 0x7F80_0000
            &&& req.buffer@.len() > 0
        }),
{
    let all = gathered(broker, req, provided);
    let c = chosen(all, broker.max_candidates)[i];
    let a = if_asked(broker.history.handles(req), provided.history);
    let b = if_asked(broker.cwd_history.handles(req), provided.cwd_history);
    let p = if_asked(broker.path.handles(req), provided.path);
    let d = if_asked(broker.cd_assist.handles(req), provided.cd_assist);
    assert(all == a + b + p + d);
    law_choice_is_safe(all, broker.max_candidates, i);
    ranking::law_dangerous_need_more(Seq::empty(), c);
    plugin::law_scores_are_ordered(c.score, c.score);
    let k = choose|k: int| 0 <= k < all.len() && all[k] == c;
    if k < a.len() {
        assert(a[k] == c);
    } else if k < a.len() + b.len() {
        assert(b[k - a.len()] == c);
    } else if k < a.len() + b.len() + p.len() {
        assert(p[k - a.len() - b.len()] == c);
    } else {
        assert(d[k - a.len() - b.len() - p.len()] == c);
    }
    if req.buffer@.len() == 0 {
        law_empty_line_gets_nothing(broker, req, provided);
    }
}

/// What is gathered stands provider by provider: the history, the history of
/// the directory, the paths, the directories; each as it was provided.
pub proof fn law_providers_in_order(
    broker: Broker,
    req: SuggestionRequest,
    provided: ProvidedCandidates,
)
    requires
        req.buffer@.len() > 0,
    ensures
        ({
            let line = text::words(req.buffer@);
            let h = if line.len() > 0 && line[0] == "cd"@ {
                0
            } else {
                provided.history@.len()
            };
            let c = h + provided.cwd_history@.len();
            let p = c + if broker.path.handles(req) {
                provided.path@.len()
            } else {
                0
            };
            let d = p + if broker.cd_assist.handles(req) {
                provided.cd_assist@.len()
            } else {
                0
            };
            let all = gathered(broker, req, provided);
            &&& all.len() == d
            &&& forall|k: int| 0 <= k < h ==> all[k] == #[trigger] provided.history@[k]
            &&& forall|k: int|
                0 <= k < c - h ==> all[h + k] == #[trigger] provided.cwd_history@[k]
            &&& forall|k: int| 0 <= k < p - c ==> all[c + k] == #[trigger] provided.path@[k]
            &&& forall|k: int| 0 <= k < d - p ==> all[p + k] == #[trigger] provided.cd_assist@[k]
        }),
{
}

/// Of suggestions with one score, the one that comes first was gathered before
/// the other.
pub proof fn law_choice_keeps_ties(all: Seq<SuggestionCandidate>, max: usize, i: int, j: int)
    requires
        0 <= i < j < chosen(all, max).len(),
        chosen(all, max)[i].score.level() == chosen(all, max)[j].score.level(),
    ensures
        exists|a: int, b: int|
            0 <= a < b < all.len() && #[trigger] all[a] == chosen(all, max)[i] && #[trigger] all[b]
                == chosen(all, max)[j],
{
    let kept = ranking::trusted_only(all);
    let s = order::ranked(kept);
    distinct::law_result_in_order(s, i, j);
    let (m, n) = choose|m: int, n: int|
        m < n && #[trigger] distinct::is_first(s, m) && #[trigger] distinct::is_first(s, n) && s[m]
            == distinct::first_of_each(s)[i] && s[n] == distinct::first_of_each(s)[j];
    order::law_ties_keep_order(kept, m, n);
    let (p, q) = choose|p: int, q: int|
        0 <= p < q < kept.len() && #[trigger] kept[p] == s[m] && #[trigger] kept[q] == s[n];
    order::lemma_picked_in_order(all, ranking::is_trusted(), p, q);
}

/// A text is suggested as its best candidate: no other that may be suggested
/// has a higher score, and one with the same score was gathered later.
pub proof fn law_choice_takes_the_best(
    all: Seq<SuggestionCandidate>,
    max: usize,
    i: int,
    c: SuggestionCandidate,
)
    requires
        0 <= i < chosen(all, max).len(),
        all.contains(c),
        ranking::trusted(c),
        c.text@ == chosen(all, max)[i].text@,
    ensures
        c.score.level() <= chosen(all, max)[i].score.level(),
        c.score.level() == chosen(all, max)[i].score.level() && c != chosen(all, max)[i]
            ==> exists|a: int, b: int|
            0 <= a < b < all.len() && #[trigger] all[a] == chosen(all, max)[i] && #[trigger] all[b]
                == c,
{
    let kept = ranking::trusted_only(all);
    let s = order::ranked(kept);
    let n = choose|n: int| 0 <= n < all.len() && all[n] == c;
    all.lemma_filter_contains(ranking::is_trusted(), n);
    lemma_ranked_contains(kept, c);
    let m = choose|m: int| 0 <= m < s.len() && s[m] == c;
    order::law_ranked_descending(kept);
    distinct::law_result_is_first(s, i);
    let k = choose|k: int| #[trigger]
        distinct::is_first(s, k) && s[k] == distinct::first_of_each(s)[i];
    assert(s[m].label() == s[k].label());
    assert(k <= m);
    assert(s[k].weight() >= s[m].weight());
    if c.score.level() == chosen(all, max)[i].score.level() && c != chosen(all, max)[i] {
        assert(k < m);
        order::law_ties_keep_order(kept, k, m);
        let (p, q) = choose|p: int, q: int|
            0 <= p < q < kept.len() && #[trigger] kept[p] == s[k] && #[trigger] kept[q] == s[m];
        order::lemma_picked_in_order(all, ranking::is_trusted(), p, q);
    }
}

} // verus!
