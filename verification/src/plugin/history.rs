//! Suggestions from what was run before, anywhere.
use vstd::prelude::*;
use crate::db::models::RankedCommand;
use crate::db::store::PrefixQuery;
use crate::plugin;
use crate::plugin::{InlineProvider, ProposalView, Proposals, SuggestionKind, SuggestionRequest};
use crate::ranking;
use crate::ranking::{RankingFeatures, Share};
use crate::text;

verus! {

/// How many commands are asked for.
pub const HISTORY_LIMIT: usize = 20;

/// Suggests the latest commands that begin with what was typed: those of the
/// journal, or, where it has none, those of the history file.
#[derive(Debug, Clone, Copy)]
pub struct HistoryPlugin {}

/// What the database said. A reply that is missing was an error, or was not
/// asked for.
#[derive(Debug, Clone)]
pub struct HistoryReply {
    pub live: Option<Vec<RankedCommand>>,
    pub seeded: Option<Vec<RankedCommand>>,
}

/// The journal was asked and knows no command.
pub open spec fn journal_is_silent(live: Option<Vec<RankedCommand>>) -> bool {
    match live {
        Some(rows) => rows@.len() == 0,
        None => false,
    }
}

/// The commands to suggest.
pub open spec fn rows_to_suggest(reply: HistoryReply) -> Seq<RankedCommand> {
    let from = if journal_is_silent(reply.live) {
        reply.seeded
    } else {
        reply.live
    };
    match from {
        Some(rows) => rows@,
        None => Seq::empty(),
    }
}

/// The proposal of one command.
pub open spec fn history_proposal(
    row: RankedCommand,
    req: SuggestionRequest,
    seeded: bool,
) -> ProposalView {
    ProposalView {
        text: row.command_line@,
        source: if seeded {
            "history_seed"@
        } else {
            "history"@
        },
        kind: SuggestionKind::Command,
        features: RankingFeatures {
            prefix_exactness: ranking::typed_share(row.command_line@, req.buffer@),
            recency: ranking::age(row.timestamp, req.timestamp_ms),
            frequency: ranking::run_share(row.frequency),
            success_bonus: Share::hundredths(
                if seeded {
                    0
                } else {
                    100
                },
            ),
            ..plugin::no_features()
        },
    }
}

impl HistoryPlugin {
    pub fn new() -> Self {
        HistoryPlugin {  }
    }

    /// What to ask of the journal and, if need be, of the commands of the
    /// history file.
    pub fn query(&self, req: &SuggestionRequest) -> (r: PrefixQuery)
        ensures
            r.asks(req.buffer@, HISTORY_LIMIT as int),
            r.limit == 20,
    {
        PrefixQuery::new(req.buffer.as_str(), HISTORY_LIMIT)
    }

    /// Whether the history file is asked, after the journal replied.
    pub fn asks_seeded(&self, live: &Option<Vec<RankedCommand>>) -> (r: bool)
        ensures
            r == journal_is_silent(*live),
    {
        match live {
            Some(rows) => rows.len() == 0,
            None => false,
        }
    }
}

impl InlineProvider for HistoryPlugin {
    type Reply = HistoryReply;

    open spec fn known_as(&self) -> Seq<char> {
        "history"@
    }

    open spec fn handles(&self, req: SuggestionRequest) -> bool {
        req.buffer@.len() > 0 && ranking::first_word(req.buffer@) != Some("cd"@)
    }

    open spec fn answerable(&self, reply: HistoryReply) -> bool {
        true
    }

    open spec fn proposed(&self, req: SuggestionRequest, reply: HistoryReply) -> Seq<
        ProposalView,
    > {
        let seeded = journal_is_silent(reply.live);
        rows_to_suggest(reply).map_values(|row: RankedCommand| history_proposal(row, req, seeded))
    }

    fn name(&self) -> (r: &'static str) {
        "history"
    }

    fn supports(&self, req: &SuggestionRequest) -> (r: bool) {
        if req.buffer.as_str().is_empty() {
            return false;
        }
        match ranking::extract_command(req.buffer.as_str()) {
            Some(cmd) => !text::eq_str(cmd, "cd"),
            None => true,
        }
    }

    fn suggest(&self, req: &SuggestionRequest, reply: HistoryReply) -> (r: Proposals) {
        let seeded: bool = self.asks_seeded(&reply.live);
        let from = if seeded {
            reply.seeded
        } else {
            reply.live
        };
        let mut out = Proposals::new();
        assert(out@ =~= Seq::<ProposalView>::empty());
        let rows = match from {
            Some(rows) => rows,
            None => {
                assert(self.proposed(*req, reply) =~= Seq::<ProposalView>::empty());
                return out;
            },
        };
        let ghost all = rows@;
        let source: &str = if seeded {
            "history_seed"
        } else {
            "history"
        };
        let bonus: u64 = if seeded {
            0
        } else {
            100
        };
        for row in it: rows
            invariant
                it.seq() == all,
                source@ == (if seeded {
                    "history_seed"@
                } else {
                    "history"@
                }),
                bonus == (if seeded {
                    0int
                } else {
                    100int
                }),
                out@ == all.take(it.index() as int).map_values(
                    |row: RankedCommand| history_proposal(row, *req, seeded),
                ),
        {
            let features = RankingFeatures {
                prefix_exactness: ranking::prefix_exactness(
                    row.command_line.as_str(),
                    req.buffer.as_str(),
                ),
                cwd_similarity: Share::percent(0),
                path_exists: Share::percent(0),
                recency: ranking::recency(row.timestamp, req.timestamp_ms),
                frequency: ranking::frequency(row.frequency),
                last_command_transition: Share::percent(0),
                success_bonus: Share::percent(bonus),
            };
            let ghost n = it.index() as int;
            let ghost row0 = row;
            out.propose(row.command_line, source, SuggestionKind::Command, features);
            assert(out@ =~= all.take(n + 1).map_values(
                |row: RankedCommand| history_proposal(row, *req, seeded),
            )) by {
                assert(all.take(n + 1) =~= all.take(n).push(row0));
            }
        }
        assert(all.take(all.len() as int) =~= all);
        out
    }
}

/// Where the journal knows a command, the history file has no say.
pub proof fn law_live_beats_seeded(
    p: HistoryPlugin,
    req: SuggestionRequest,
    live: Vec<RankedCommand>,
    a: Option<Vec<RankedCommand>>,
    b: Option<Vec<RankedCommand>>,
)
    requires
        live@.len() > 0,
    ensures
        p.proposed(req, (HistoryReply { live: Some(live), seeded: a })) == p.proposed(
            req,
            (HistoryReply { live: Some(live), seeded: b }),
        ),
        forall|i: int|
            0 <= i < live@.len() ==> (#[trigger] p.proposed(
                req,
                (HistoryReply { live: Some(live), seeded: a }),
            )[i]).source == "history"@,
{
}

/// The shares of each proposal lie between nothing and all.
pub proof fn law_history_features_valid(row: RankedCommand, req: SuggestionRequest, seeded: bool)
    requires
        ranking::fits(row.command_line@),
    ensures
        history_proposal(row, req, seeded).features.valid(),
{
    ranking::law_typed_share_valid(row.command_line@, req.buffer@);
}

/// Each command is proposed once, in the order of the reply.
pub proof fn law_history_keeps_order(
    p: HistoryPlugin,
    req: SuggestionRequest,
    reply: HistoryReply,
    i: int,
)
    requires
        0 <= i < rows_to_suggest(reply).len(),
    ensures
        p.proposed(req, reply).len() == rows_to_suggest(reply).len(),
        p.proposed(req, reply)[i].text == rows_to_suggest(reply)[i].command_line@,
{
}

/// Each command that the journal knows is proposed, in order; where it was asked
/// and knows none, each of those of the history file is; where it failed,
/// nothing. A command is proposed as it was run, with what is known of it, and
/// what comes from the history file has no bonus for having ended well.
pub proof fn law_history_is_proposed(
    p: HistoryPlugin,
    req: SuggestionRequest,
    reply: HistoryReply,
    i: int,
)
    ensures
        ({
            let views = p.proposed(req, reply);
            let live = reply.live is Some && reply.live->0@.len() > 0;
            let fallen_back = reply.live is Some && reply.live->0@.len() == 0 && reply.seeded
                is Some;
            let rows = if live {
                reply.live->0@
            } else {
                reply.seeded->0@
            };
            &&& !live && !fallen_back ==> views.len() == 0
            &&& live || fallen_back ==> views.len() == rows.len()
            &&& (live || fallen_back) && 0 <= i < rows.len() ==> {
                let f = views[i].features;
                let then = rows[i].timestamp;
                let now = req.timestamp_ms;
                &&& views[i].text == rows[i].command_line@
                &&& views[i].kind == SuggestionKind::Command
                &&& live ==> views[i].source == "history"@ && f.success_bonus.part == 100
                &&& !live ==> views[i].source == "history_seed"@ && f.success_bonus.part == 0
                &&& f.success_bonus.whole == 100
                &&& f.prefix_exactness == ranking::typed_share(rows[i].command_line@, req.buffer@)
                &&& then < now ==> f.recency == (ranking::Recency::Aged {
                    age_ms: (now - then) as u64,
                })
                &&& then >= now ==> f.recency == ranking::Recency::Fresh
                &&& f.frequency == (Share {
                    part: if rows[i].frequency > 100 {
                        100
                    } else {
                        rows[i].frequency
                    },
                    whole: 100,
                })
                &&& f.cwd_similarity.part == 0 && f.path_exists.part == 0
                &&& f.last_command_transition.part == 0
            }
        }),
        journal_is_silent(reply.live) <==> reply.live is Some && reply.live->0@.len() == 0,
        p.handles(req) <==> req.buffer@.len() > 0 && !(text::words(req.buffer@).len() > 0
            && text::words(req.buffer@)[0] == "cd"@),
{
}

} // verus!
