//! What holds of the journal that an engine leaves behind, and of what it reports.
use crate::action::ActionView;
use crate::config::Config;
use crate::event::{Answers, EventView};
use crate::journal::{EntryView, ReplayView};
use crate::laws::{law_complete_iff_all_certified, lemma_step};
use crate::model::{lemma_filled, EngineView};
use crate::restart::{
    idle, journaled, law_certified_determines_progress, law_restart_recovers_progress,
    lemma_appended_step, lemma_around_gain, lemma_replay_log, lemma_replayed, own_journal,
    possible_lives, possible_run, replay_log, replays, run, same_progress,
};
use crate::types::CertificateView;
use vstd::prelude::*;

verus! {

/// Whether a log has a certificate of a position.
pub open spec fn covers(log: Seq<CertificateView>, position: u64) -> bool {
    exists|i: int| 0 <= i < log.len() && (#[trigger] log[i]).position() == position
}

/// Whether a log has at most one certificate of each position.
pub open spec fn one_each(log: Seq<CertificateView>) -> bool {
    forall|i: int, j: int|
        0 <= i < log.len() && 0 <= j < log.len() && (#[trigger] log[i]).position() == (
        #[trigger] log[j]).position() ==> i == j
}

/// Whether all that a log has of one position is the same certificate, once or more.
pub open spec fn consistent(log: Seq<CertificateView>) -> bool {
    forall|i: int, j: int|
        0 <= i < log.len() && 0 <= j < log.len() && (#[trigger] log[i]).position() == (
        #[trigger] log[j]).position() ==> log[i] == log[j]
}

/// Whether two logs have the same certificates, in whatever order and however often.
pub open spec fn same_entries(a: Seq<CertificateView>, b: Seq<CertificateView>) -> bool {
    forall|certificate: CertificateView| #[trigger]
        a.contains(certificate) <==> b.contains(certificate)
}

/// Whether every certificate of a log is of the epoch and of the range.
spec fn eligible(config: Config, log: Seq<CertificateView>) -> bool {
    forall|i: int|
        0 <= i < log.len() ==> (#[trigger] log[i]).epoch == config.epoch && config.first.0
            <= log[i].position() <= config.last.0
}

/// An engine that replayed a log has certified what the log covers, and holds only what it has.
proof fn lemma_replays(config: Config, log: Seq<CertificateView>)
    requires
        config.valid(),
        replays(config, log),
    ensures
        eligible(config, log),
        idle(replay_log(config, log)) == replay_log(config, log),
        forall|position: u64| #[trigger]
            replay_log(config, log).certified().contains(position) <==> covers(log, position),
        forall|position: u64| #[trigger]
            replay_log(config, log).confirmed.contains_key(position) ==> log.contains(
                replay_log(config, log).confirmed[position],
            ),
    decreases log.len(),
{
    lemma_replay_log(config, log);
    let after = replay_log(config, log);
    if log.len() > 0 {
        let rest = log.drop_last();
        let certificate = log.last();
        let before = replay_log(config, rest);
        lemma_replays(config, rest);
        lemma_replay_log(config, rest);
        lemma_replayed(before, certificate);
        assert(log[log.len() - 1] == certificate);
        assert forall|i: int| 0 <= i < log.len() implies (#[trigger] log[i]).epoch == config.epoch
            && config.first.0 <= log[i].position() <= config.last.0 by {
            if i < rest.len() {
                assert(rest[i] == log[i]);
            }
        }
        assert(after == before.replayed(certificate));
        assert forall|position: u64| #[trigger] after.certified().contains(position) <==> covers(
            log,
            position,
        ) by {
            if covers(rest, position) {
                let i = choose|i: int|
                    0 <= i < rest.len() && (#[trigger] rest[i]).position() == position;
                assert(log[i].position() == position);
            }
            if covers(log, position) && position != certificate.position() {
                let i = choose|i: int|
                    0 <= i < log.len() && (#[trigger] log[i]).position() == position;
                assert(rest[i].position() == position);
            }
            assert(before.certified().contains(position) <==> covers(rest, position));
        }
        assert forall|position: u64| #[trigger] after.confirmed.contains_key(position) implies
            log.contains(after.confirmed[position]) by {
            if position != certificate.position() {
                let held = before.confirmed[position];
                assert(rest.contains(held));
                let i = choose|i: int| 0 <= i < rest.len() && rest[i] == held;
                assert(log[i] == held);
            }
        }
    } else {
        assert(after =~= idle(after));
        assert forall|position: u64| !(#[trigger] after.certified().contains(position)) by {}
    }
}

/// A log whose certificates are eligible and consistent is not refused.
proof fn lemma_consistent_replays(config: Config, log: Seq<CertificateView>)
    requires
        config.valid(),
        eligible(config, log),
        consistent(log),
    ensures
        replays(config, log),
    decreases log.len(),
{
    if log.len() > 0 {
        let rest = log.drop_last();
        let certificate = log.last();
        let before = replay_log(config, rest);
        assert forall|i: int| 0 <= i < rest.len() implies (#[trigger] rest[i]).epoch
            == config.epoch && config.first.0 <= rest[i].position() <= config.last.0 by {
            assert(rest[i] == log[i]);
        }
        assert forall|i: int, j: int|
            0 <= i < rest.len() && 0 <= j < rest.len() && (#[trigger] rest[i]).position() == (
            #[trigger] rest[j]).position() implies rest[i] == rest[j] by {
            assert(rest[i] == log[i] && rest[j] == log[j]);
        }
        lemma_consistent_replays(config, rest);
        lemma_replays(config, rest);
        lemma_replay_log(config, rest);
        assert(log[log.len() - 1] == certificate);
        if before.conflicts(certificate) {
            let held = before.confirmed[certificate.position()];
            assert(rest.contains(held));
            let i = choose|i: int| 0 <= i < rest.len() && rest[i] == held;
            assert(log[i] == held);
            assert(log[i].position() == log[log.len() - 1].position());
        }
    }
}

/// A journal may be replayed in any order, and each of its certificates as often as one likes: none is
/// refused, and the engine is the same in the end.
pub proof fn law_replay_in_any_order(
    config: Config,
    log: Seq<CertificateView>,
    other: Seq<CertificateView>,
)
    requires
        config.valid(),
        replays(config, log),
        consistent(log),
        same_entries(log, other),
    ensures
        replays(config, other),
        replay_log(config, other) == replay_log(config, log),
{
    lemma_replays(config, log);
    lemma_replay_log(config, log);
    assert forall|i: int| 0 <= i < other.len() implies (#[trigger] other[i]).epoch == config.epoch
        && config.first.0 <= other[i].position() <= config.last.0 by {
        let k = lemma_found(log, other, i);
    }
    assert forall|i: int, j: int|
        0 <= i < other.len() && 0 <= j < other.len() && (#[trigger] other[i]).position() == (
        #[trigger] other[j]).position() implies other[i] == other[j] by {
        let k = lemma_found(log, other, i);
        let l = lemma_found(log, other, j);
        assert(log[k].position() == log[l].position());
    }
    lemma_consistent_replays(config, other);
    lemma_replays(config, other);
    lemma_replay_log(config, other);
    let a = replay_log(config, log);
    let b = replay_log(config, other);
    assert forall|position: u64| #[trigger] a.certified().contains(position) == b.certified().contains(
        position,
    ) by {
        if covers(log, position) {
            let i = choose|i: int|
                0 <= i < log.len() && (#[trigger] log[i]).position() == position;
            let k = lemma_found(other, log, i);
            assert(other[k].position() == position);
        }
        if covers(other, position) {
            let i = choose|i: int|
                0 <= i < other.len() && (#[trigger] other[i]).position() == position;
            let k = lemma_found(log, other, i);
            assert(log[k].position() == position);
        }
        assert(b.certified().contains(position) <==> covers(other, position));
    }
    assert(a.certified() =~= b.certified());
    law_certified_determines_progress(a, b);
    assert forall|position: u64| #[trigger] a.confirmed.contains_key(position) implies
        a.confirmed[position] == b.confirmed[position] by {
        assert(b.confirmed.dom().contains(position));
        assert(b.confirmed.contains_key(position));
        let ours = a.confirmed[position];
        let theirs = b.confirmed[position];
        assert(log.contains(ours));
        assert(other.contains(theirs));
        assert(log.contains(theirs));
        let i = choose|i: int| 0 <= i < log.len() && log[i] == ours;
        let j = choose|j: int| 0 <= j < log.len() && log[j] == theirs;
        assert(log[i].position() == log[j].position());
    }
    assert(a.confirmed =~= b.confirmed);
    assert(a =~= b);
}

/// Where a log has a certificate that another has.
proof fn lemma_found(log: Seq<CertificateView>, other: Seq<CertificateView>, i: int) -> (k: int)
    requires
        same_entries(log, other),
        0 <= i < other.len(),
    ensures
        0 <= k < log.len(),
        log[k] == other[i],
{
    assert(other.contains(other[i]));
    assert(log.contains(other[i]));
    choose|k: int| 0 <= k < log.len() && log[k] == other[i]
}

/// What happens to an engine adds at most one certificate of each position to its journal, and none of
/// a position that the journal covers already.
proof fn lemma_one_each(config: Config, log: Seq<CertificateView>, events: Seq<(EventView, Answers)>)
    requires
        config.valid(),
        replays(config, log),
        one_each(log),
        possible_run(replay_log(config, log).filled(), events),
    ensures
        one_each(log + journaled(replay_log(config, log).filled(), events)),
    decreases events.len(),
{
    let start = replay_log(config, log).filled();
    if events.len() == 0 {
        assert(log + Seq::<CertificateView>::empty() =~= log);
    } else {
        let before = events.drop_last();
        let (event, answers) = events.last();
        let live = run(start, before);
        let old_log = log + journaled(start, before);
        let new_log = log + journaled(start, events);
        lemma_one_each(config, log, before);
        law_restart_recovers_progress(config, log, before);
        lemma_appended_step(live, event, answers);
        lemma_step(live, event, answers);
        lemma_replays(config, old_log);
        match live.gained(event, answers) {
            Some(certificate) => {
                assert(new_log =~= old_log.push(certificate));
                let replayed = replay_log(config, old_log);
                assert(!live.complete);
                assert(!replayed.certified().contains(certificate.position()));
                assert forall|i: int, j: int|
                    0 <= i < new_log.len() && 0 <= j < new_log.len() && (#[trigger] new_log[i]).position()
                        == (#[trigger] new_log[j]).position() implies i == j by {
                    if i < old_log.len() {
                        assert(old_log[i] == new_log[i]);
                    }
                    if j < old_log.len() {
                        assert(old_log[j] == new_log[j]);
                    }
                }
            },
            None => {
                assert(new_log =~= old_log);
            },
        }
    }
}

/// The journal that an engine leaves behind has at most one certificate of each position, however
/// often it was restarted.
pub proof fn law_journal_has_one_each(config: Config, lives: Seq<Seq<(EventView, Answers)>>)
    requires
        config.valid(),
        possible_lives(config, lives),
    ensures
        replays(config, own_journal(config, lives)),
        one_each(own_journal(config, lives)),
        consistent(own_journal(config, lives)),
    decreases lives.len(),
{
    if lives.len() > 0 {
        law_journal_has_one_each(config, lives.drop_last());
        let log = own_journal(config, lives.drop_last());
        lemma_one_each(config, log, lives.last());
        law_restart_recovers_progress(config, log, lives.last());
    }
}

/// An engine that is restarted from its own journal may read it in any order: none of it is refused,
/// and no progress of its last life is lost.
pub proof fn law_restart_in_any_order(
    config: Config,
    lives: Seq<Seq<(EventView, Answers)>>,
    log: Seq<CertificateView>,
)
    requires
        config.valid(),
        lives.len() > 0,
        possible_lives(config, lives),
        same_entries(own_journal(config, lives), log),
    ensures
        replays(config, log),
        replay_log(config, log) == replay_log(config, own_journal(config, lives)),
        same_progress(
            replay_log(config, log),
            run(
                replay_log(config, own_journal(config, lives.drop_last())).filled(),
                lives.last(),
            ),
        ),
{
    law_journal_has_one_each(config, lives);
    law_journal_has_one_each(config, lives.drop_last());
    law_replay_in_any_order(config, own_journal(config, lives), log);
    law_restart_recovers_progress(
        config,
        own_journal(config, lives.drop_last()),
        lives.last(),
    );
}

/// A log that has the same certificates the same number of times has the same certificates.
pub proof fn law_reordered_log_has_same_entries(
    log: Seq<CertificateView>,
    other: Seq<CertificateView>,
)
    requires
        log.to_multiset() == other.to_multiset(),
    ensures
        same_entries(log, other),
{
    log.to_multiset_ensures();
    other.to_multiset_ensures();
    assert forall|certificate: CertificateView| #[trigger] log.contains(certificate)
        <==> other.contains(certificate) by {
        assert(log.contains(certificate) <==> log.to_multiset().count(certificate) > 0);
        assert(other.contains(certificate) <==> other.to_multiset().count(certificate) > 0);
    }
}

/// The certificates that actions report.
pub open spec fn reports(actions: Seq<ActionView>) -> Seq<CertificateView>
    decreases actions.len(),
{
    if actions.len() == 0 {
        Seq::empty()
    } else {
        let before = reports(actions.drop_last());
        match actions.last() {
            ActionView::Report(certificate) => before.push(certificate),
            _ => before,
        }
    }
}

/// The certificates that one event after the other reports.
pub open spec fn reported(engine: EngineView, events: Seq<(EventView, Answers)>) -> Seq<
    CertificateView,
>
    decreases events.len(),
{
    if events.len() == 0 {
        Seq::empty()
    } else {
        reported(engine, events.drop_last()) + reports(
            run(engine, events.drop_last()).step_actions(events.last().0, events.last().1),
        )
    }
}

/// What is to be done about the certificates of a log as they are replayed.
pub open spec fn replay_actions(log: Seq<CertificateView>) -> Seq<ActionView>
    decreases log.len(),
{
    if log.len() == 0 {
        Seq::empty()
    } else {
        replay_actions(log.drop_last()) + ReplayView::actions(EntryView::Certificate(log.last()))
    }
}

/// What two lists report, one after the other.
proof fn lemma_reports_concat(a: Seq<ActionView>, b: Seq<ActionView>)
    ensures
        reports(a + b) == reports(a) + reports(b),
    decreases b.len(),
{
    if b.len() == 0 {
        assert(a + b =~= a);
        assert(reports(a) + Seq::<CertificateView>::empty() =~= reports(a));
    } else {
        lemma_reports_concat(a, b.drop_last());
        assert((a + b).drop_last() =~= a + b.drop_last());
        assert(reports(a + b) =~= reports(a) + reports(b));
    }
}

/// What reports nothing.
proof fn lemma_reports_none(actions: Seq<ActionView>)
    requires
        forall|i: int| 0 <= i < actions.len() ==> !(#[trigger] actions[i] is Report),
    ensures
        reports(actions) == Seq::<CertificateView>::empty(),
    decreases actions.len(),
{
    if actions.len() > 0 {
        lemma_reports_none(actions.drop_last());
    }
}

/// What reports one certificate.
proof fn lemma_reports_one(certificate: CertificateView)
    ensures
        reports(seq![ActionView::Report(certificate)]) == seq![certificate],
{
    let actions = seq![ActionView::Report(certificate)];
    assert(actions.drop_last() =~= Seq::empty());
    reveal_with_fuel(reports, 2);
    assert(reports(actions) =~= seq![certificate]);
}

/// An event reports the certificate that it leads to, and nothing else.
proof fn lemma_reports_step(engine: EngineView, event: EventView, answers: Answers)
    requires
        engine.well_formed(),
        engine.possible(event),
    ensures
        reports(engine.step_actions(event, answers)) == match engine.gained(event, answers) {
            Some(certificate) => seq![certificate],
            None => Seq::empty(),
        },
{
    let actions = engine.step_actions(event, answers);
    lemma_around_gain(engine, event, answers);
    if event is Shutdown || event is ReceiverFailed {
        lemma_reports_none(actions);
    } else {
        let pre = engine.prologue(event, answers);
        let gain = engine.gain_actions(event, answers);
        let post = engine.epilogue(event, answers) + engine.step(event, answers).closing();
        lemma_reports_concat(pre + gain, post);
        lemma_reports_concat(pre, gain);
        lemma_reports_none(pre);
        lemma_reports_none(post);
        match engine.gained(event, answers) {
            Some(certificate) => {
                let durable = gain.take(2);
                let report = gain.subrange(2, 3);
                let rest = gain.skip(3);
                assert(gain =~= durable + report + rest);
                assert(report =~= seq![ActionView::Report(certificate)]);
                lemma_reports_concat(durable + report, rest);
                lemma_reports_concat(durable, report);
                lemma_reports_none(durable);
                lemma_reports_one(certificate);
                assert forall|i: int| 0 <= i < rest.len() implies !(
                #[trigger] rest[i] is Report) by {
                    assert(rest[i] == gain[i + 3]);
                }
                lemma_reports_none(rest);
                assert(reports(gain) =~= seq![certificate]);
            },
            None => {
                lemma_reports_none(gain);
            },
        }
        assert(reports(actions) =~= reports(gain));
    }
}

/// An engine reports what it appends to its journal: each certificate once, in the same order.
/// Whatever it replays, it reports as well.
pub proof fn law_reports_what_it_journals(
    engine: EngineView,
    events: Seq<(EventView, Answers)>,
    log: Seq<CertificateView>,
)
    requires
        engine.well_formed(),
        possible_run(engine, events),
    ensures
        run(engine, events).well_formed(),
        reported(engine, events) == journaled(engine, events),
        reports(replay_actions(log)) == log,
    decreases events.len(), log.len(),
{
    if events.len() > 0 {
        let before = events.drop_last();
        law_reports_what_it_journals(engine, before, log);
        let live = run(engine, before);
        let (event, answers) = events.last();
        lemma_step(live, event, answers);
        lemma_appended_step(live, event, answers);
        lemma_reports_step(live, event, answers);
    } else if log.len() > 0 {
        law_reports_what_it_journals(engine, events, log.drop_last());
        let replayed = ReplayView::actions(EntryView::Certificate(log.last()));
        lemma_reports_concat(replay_actions(log.drop_last()), replayed);
        lemma_reports_one(log.last());
        assert(log.drop_last() + seq![log.last()] =~= log);
    }
}

/// An engine that is complete, and so stops as completed, has reported a certificate of every position
/// of its range, when it replayed its journal or since.
pub proof fn law_completed_engine_reported_all(
    config: Config,
    log: Seq<CertificateView>,
    events: Seq<(EventView, Answers)>,
    position: u64,
)
    requires
        config.valid(),
        replays(config, log),
        possible_run(replay_log(config, log).filled(), events),
        run(replay_log(config, log).filled(), events).complete,
        config.first.0 <= position <= config.last.0,
    ensures
        covers(reports(replay_actions(log)), position) || covers(
            reported(replay_log(config, log).filled(), events),
            position,
        ),
{
    let start = replay_log(config, log).filled();
    lemma_replay_log(config, log);
    lemma_filled(replay_log(config, log));
    law_reports_what_it_journals(start, events, log);
    law_restart_recovers_progress(config, log, events);
    let since = journaled(start, events);
    let all = log + since;
    let replayed = replay_log(config, all);
    lemma_replay_log(config, all);
    lemma_replays(config, all);
    law_complete_iff_all_certified(replayed);
    assert(replayed.certified().contains(position));
    let i = choose|i: int| 0 <= i < all.len() && (#[trigger] all[i]).position() == position;
    if i < log.len() {
        assert(log[i].position() == position);
    } else {
        assert(since[i - log.len()].position() == position);
    }
}

} // verus!
