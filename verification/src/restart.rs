//! What a restart recovers.
use crate::action::ActionView;
use crate::config::Config;
use crate::event::{Answers, EventView};
use crate::laws::{
    law_complete_iff_all_certified, law_frontier_is_lowest_uncertified, law_no_quorum_waits,
    law_progress_is_kept, law_rebroadcast_until_certified, law_window_follows_frontier,
    lemma_reactions, lemma_step,
};
use crate::model::{lemma_advanced, lemma_filled, EngineView};
use crate::types::{CertificateView, Height};
use vstd::prelude::*;

verus! {

/// An engine that begins with what it replayed.
pub open spec fn replay_log(config: Config, log: Seq<CertificateView>) -> EngineView
    decreases log.len(),
{
    if log.len() == 0 {
        EngineView::fresh(config)
    } else {
        replay_log(config, log.drop_last()).after_replay(log.last(), true)
    }
}

/// Whether none of a log is refused, where every proof verifies.
pub open spec fn replays(config: Config, log: Seq<CertificateView>) -> bool
    decreases log.len(),
{
    log.len() > 0 ==> replays(config, log.drop_last()) && replay_log(
        config,
        log.drop_last(),
    ).replay_error(log.last(), true) is None
}

/// An engine after one event after the other.
pub open spec fn run(engine: EngineView, events: Seq<(EventView, Answers)>) -> EngineView
    decreases events.len(),
{
    if events.len() == 0 {
        engine
    } else {
        run(engine, events.drop_last()).step(events.last().0, events.last().1)
    }
}

/// Whether events can happen one after the other.
pub open spec fn possible_run(engine: EngineView, events: Seq<(EventView, Answers)>) -> bool
    decreases events.len(),
{
    events.len() > 0 ==> possible_run(engine, events.drop_last()) && run(
        engine,
        events.drop_last(),
    ).possible(events.last().0)
}

/// The certificates that actions append to the journal.
pub open spec fn appended(actions: Seq<ActionView>) -> Seq<CertificateView>
    decreases actions.len(),
{
    if actions.len() == 0 {
        Seq::empty()
    } else {
        let before = appended(actions.drop_last());
        match actions.last() {
            ActionView::Append { certificate, .. } => before.push(certificate),
            _ => before,
        }
    }
}

/// The certificates that one event after the other appends to the journal.
pub open spec fn journaled(engine: EngineView, events: Seq<(EventView, Answers)>) -> Seq<
    CertificateView,
>
    decreases events.len(),
{
    if events.len() == 0 {
        Seq::empty()
    } else {
        journaled(engine, events.drop_last()) + appended(
            run(engine, events.drop_last()).step_actions(events.last().0, events.last().1),
        )
    }
}

/// What two lists append, one after the other.
proof fn lemma_appended_concat(a: Seq<ActionView>, b: Seq<ActionView>)
    ensures
        appended(a + b) == appended(a) + appended(b),
    decreases b.len(),
{
    if b.len() == 0 {
        assert(a + b =~= a);
        assert(appended(a) + Seq::<CertificateView>::empty() =~= appended(a));
    } else {
        lemma_appended_concat(a, b.drop_last());
        assert((a + b).drop_last() =~= a + b.drop_last());
        assert(appended(a + b) =~= appended(a) + appended(b));
    }
}

/// What appends nothing.
proof fn lemma_appended_none(actions: Seq<ActionView>)
    requires
        forall|i: int| 0 <= i < actions.len() ==> !(#[trigger] actions[i] is Append),
    ensures
        appended(actions) == Seq::<CertificateView>::empty(),
    decreases actions.len(),
{
    if actions.len() > 0 {
        lemma_appended_none(actions.drop_last());
    }
}

/// Of what is to be done about an event, only what its certificate leads to appends or reports: the
/// certificate is appended first and reported third.
#[verifier::spinoff_prover]
#[verifier::rlimit(30)]
pub proof fn lemma_around_gain(engine: EngineView, event: EventView, answers: Answers)
    requires
        engine.well_formed(),
        engine.possible(event),
    ensures
        ({
            let actions = engine.step_actions(event, answers);
            let pre = engine.prologue(event, answers);
            let gain = engine.gain_actions(event, answers);
            let post = engine.epilogue(event, answers) + engine.step(event, answers).closing();
            if event is Shutdown || event is ReceiverFailed {
                &&& engine.gained(event, answers) is None
                &&& forall|i: int|
                    0 <= i < actions.len() ==> !(#[trigger] actions[i] is Append || actions[i] is Report)
            } else {
                &&& actions == pre + gain + post
                &&& forall|i: int|
                    0 <= i < pre.len() ==> !(#[trigger] pre[i] is Append || pre[i] is Report)
                &&& forall|i: int|
                    0 <= i < post.len() ==> !(#[trigger] post[i] is Append || post[i] is Report)
                &&& match engine.gained(event, answers) {
                    Some(certificate) => {
                        &&& gain.len() >= 3
                        &&& gain[0] matches ActionView::Append { certificate: c, .. } && c
                            == certificate
                        &&& gain[1] is Sync
                        &&& gain[2] == ActionView::Report(certificate)
                        &&& forall|i: int|
                            3 <= i < gain.len() ==> (#[trigger] gain[i] is AbortDigest || gain[i]
                                is RequestDigest)
                    },
                    None => gain.len() == 0,
                }
            }
        }),
{
    let actions = engine.step_actions(event, answers);
    lemma_step(engine, event, answers);
    if !(event is Shutdown || event is ReceiverFailed) {
        lemma_reactions(engine, event, answers);
        assert(actions =~= engine.prologue(event, answers) + engine.gain_actions(event, answers) + (
        engine.epilogue(event, answers) + engine.step(event, answers).closing()));
    }
}

/// An event appends the certificate that it leads to, and nothing else.
pub proof fn lemma_appended_step(engine: EngineView, event: EventView, answers: Answers)
    requires
        engine.well_formed(),
        engine.possible(event),
    ensures
        appended(engine.step_actions(event, answers)) == match engine.gained(event, answers) {
            Some(certificate) => seq![certificate],
            None => Seq::empty(),
        },
{
    let actions = engine.step_actions(event, answers);
    lemma_around_gain(engine, event, answers);
    if event is Shutdown || event is ReceiverFailed {
        lemma_appended_none(actions);
    } else {
        let pre = engine.prologue(event, answers);
        let gain = engine.gain_actions(event, answers);
        let post = engine.epilogue(event, answers) + engine.step(event, answers).closing();
        lemma_appended_concat(pre + gain, post);
        lemma_appended_concat(pre, gain);
        lemma_appended_none(pre);
        lemma_appended_none(post);
        match engine.gained(event, answers) {
            Some(certificate) => {
                let first = gain.take(1);
                let rest = gain.skip(1);
                assert(gain =~= first + rest);
                lemma_appended_concat(first, rest);
                assert forall|i: int| 0 <= i < rest.len() implies !(
                #[trigger] rest[i] is Append) by {
                    assert(rest[i] == gain[i + 1]);
                }
                lemma_appended_none(rest);
                assert(first.drop_last() =~= Seq::empty());
                reveal_with_fuel(appended, 2);
                assert(appended(first) =~= seq![certificate]);
            },
            None => {
                lemma_appended_none(gain);
            },
        }
        assert(appended(actions) =~= appended(gain));
    }
}

/// An engine that replays a log has no live position.
pub proof fn lemma_replay_log(config: Config, log: Seq<CertificateView>)
    requires
        config.valid(),
    ensures
        replay_log(config, log).well_formed(),
        replay_log(config, log).config == config,
        replay_log(config, log).pending.is_empty(),
    decreases log.len(),
{
    if log.len() > 0 {
        let before = replay_log(config, log.drop_last());
        lemma_replay_log(config, log.drop_last());
        if before.replay_error(log.last(), true) is None && log.last().position()
            >= before.frontier {
            lemma_advanced(before, log.last());
        }
    }
}

/// Whether two engines have the same certificates and the same frontier.
pub open spec fn same_progress(a: EngineView, b: EngineView) -> bool {
    &&& a.config == b.config
    &&& a.frontier == b.frontier
    &&& a.complete == b.complete
    &&& a.confirmed == b.confirmed
}

/// A restart loses no progress. Take an engine that began with what it replayed, and whatever
/// happened to it since: its journal, with what was appended, replays without a refusal, and leads
/// to the same frontier and the same certificates.
pub proof fn law_restart_recovers_progress(
    config: Config,
    log: Seq<CertificateView>,
    events: Seq<(EventView, Answers)>,
)
    requires
        config.valid(),
        replays(config, log),
        possible_run(replay_log(config, log).filled(), events),
    ensures
        run(replay_log(config, log).filled(), events).well_formed(),
        replays(config, log + journaled(replay_log(config, log).filled(), events)),
        same_progress(
            replay_log(config, log + journaled(replay_log(config, log).filled(), events)),
            run(replay_log(config, log).filled(), events),
        ),
    decreases events.len(),
{
    let start = replay_log(config, log).filled();
    lemma_replay_log(config, log);
    lemma_filled(replay_log(config, log));
    if events.len() == 0 {
        assert(log + Seq::<CertificateView>::empty() =~= log);
    } else {
        let before = events.drop_last();
        law_restart_recovers_progress(config, log, before);
        let live = run(start, before);
        let (event, answers) = events.last();
        lemma_step(live, event, answers);
        lemma_appended_step(live, event, answers);
        let old_log = log + journaled(start, before);
        let new_log = log + journaled(start, events);
        lemma_replay_log(config, old_log);
        match live.gained(event, answers) {
            Some(certificate) => {
                assert(new_log =~= old_log.push(certificate));
                assert(new_log.drop_last() =~= old_log);
                let replayed = replay_log(config, old_log);
                assert(replayed.replay_error(certificate, true) is None);
            },
            None => {
                assert(new_log =~= old_log);
            },
        }
    }
}

/// A new engine holds no certificate beyond its window, and no quorum waits in it.
pub proof fn law_new_engine_is_sound(config: Config)
    requires
        config.valid(),
    ensures
        EngineView::fresh(config).well_formed(),
        EngineView::fresh(config).bounded(),
        EngineView::fresh(config).settled(),
        EngineView::fresh(config).timed(),
        EngineView::fresh(config).certified() == Set::<u64>::empty(),
{
    assert(EngineView::fresh(config).certified() =~= Set::empty());
}

/// Whatever happens, in whatever order: an engine that has begun keeps its window live or certified,
/// holds no certificate beyond it, and lets no quorum wait.
pub proof fn law_run_stays_sound(engine: EngineView, events: Seq<(EventView, Answers)>)
    requires
        engine.well_formed(),
        engine.covered(),
        engine.bounded(),
        engine.settled(),
        possible_run(engine, events),
    ensures
        run(engine, events).well_formed(),
        run(engine, events).covered(),
        run(engine, events).bounded(),
        run(engine, events).settled(),
        run(engine, events).config == engine.config,
    decreases events.len(),
{
    if events.len() > 0 {
        law_run_stays_sound(engine, events.drop_last());
        let before = run(engine, events.drop_last());
        let (event, answers) = events.last();
        law_progress_is_kept(before, event, answers);
        law_window_follows_frontier(before, event, answers);
        law_no_quorum_waits(before, event, answers);
    }
}

/// The journal that an engine leaves behind after one life after the other: in each it replays its
/// journal, begins, and then lives through one of `lives`.
pub open spec fn own_journal(config: Config, lives: Seq<Seq<(EventView, Answers)>>) -> Seq<
    CertificateView,
>
    decreases lives.len(),
{
    if lives.len() == 0 {
        Seq::empty()
    } else {
        let log = own_journal(config, lives.drop_last());
        log + journaled(replay_log(config, log).filled(), lives.last())
    }
}

/// Whether an engine can live through one of `lives` after the other.
pub open spec fn possible_lives(config: Config, lives: Seq<Seq<(EventView, Answers)>>) -> bool
    decreases lives.len(),
{
    lives.len() > 0 ==> possible_lives(config, lives.drop_last()) && possible_run(
        replay_log(config, own_journal(config, lives.drop_last())).filled(),
        lives.last(),
    )
}

/// An engine that is restarted from its own journal, however often that was, is as sound as a new
/// one: nothing in the journal is refused, no certificate lies beyond the window, no quorum waits,
/// and once it has begun its window is live or certified. All that [`law_run_stays_sound`] asks of an
/// engine holds of it.
pub proof fn law_restarted_engine_is_sound(config: Config, lives: Seq<Seq<(EventView, Answers)>>)
    requires
        config.valid(),
        possible_lives(config, lives),
    ensures
        replays(config, own_journal(config, lives)),
        ({
            let restarted = replay_log(config, own_journal(config, lives));
            &&& restarted.config == config
            &&& restarted.well_formed()
            &&& restarted.bounded()
            &&& restarted.settled()
            &&& restarted.timed()
            &&& restarted.filled().well_formed()
            &&& restarted.filled().bounded()
            &&& restarted.filled().settled()
            &&& restarted.filled().timed()
            &&& restarted.filled().covered()
        }),
    decreases lives.len(),
{
    let restarted = replay_log(config, own_journal(config, lives));
    lemma_replay_log(config, own_journal(config, lives));
    if lives.len() == 0 {
        law_new_engine_is_sound(config);
    } else {
        let log = own_journal(config, lives.drop_last());
        let events = lives.last();
        law_restarted_engine_is_sound(config, lives.drop_last());
        law_restart_recovers_progress(config, log, events);
        let live = run(replay_log(config, log).filled(), events);
        law_run_stays_sound(replay_log(config, log).filled(), events);
        assert forall|position: u64| #[trigger] restarted.confirmed.contains_key(position) implies
            restarted.in_window(position) by {
            assert(live.in_window(position));
        }
    }
    let quiet = Answers { verified: true, signed: None, proof: Seq::empty() };
    lemma_filled(restarted);
    law_window_follows_frontier(restarted, EventView::Undecodable, quiet);
    law_no_quorum_waits(restarted, EventView::Undecodable, quiet);
    law_rebroadcast_until_certified(restarted, EventView::Undecodable, quiet);
}

/// A restarted engine asks again for the digest at every position of its window that is not
/// certified, whether or not the application declined it before.
pub proof fn law_restart_asks_again(config: Config, log: Seq<CertificateView>, position: u64)
    requires
        config.valid(),
        !replay_log(config, log).complete,
        replay_log(config, log).in_window(position),
        !replay_log(config, log).certified().contains(position),
    ensures
        replay_log(config, log).openings().contains(Height(position)),
        replay_log(config, log).filled().requested.contains(position),
        replay_log(config, log).filled().awaits(position),
{
    let restarted = replay_log(config, log);
    lemma_replay_log(config, log);
    assert(!restarted.pending.contains_key(position));
    assert(!restarted.occupied(position));
    lemma_vacant_has(
        restarted,
        restarted.frontier as int,
        restarted.window_end(),
        position,
    );
}

/// A position that is neither live nor certified is vacant.
proof fn lemma_vacant_has(engine: EngineView, from: int, to: int, position: u64)
    requires
        0 <= from <= position <= to <= u64::MAX,
        !engine.occupied(position),
    ensures
        engine.vacant(from, to).contains(Height(position)),
    decreases to - from + 1,
{
    let all = engine.vacant(from, to);
    if from == position {
        assert(all[0] == Height(position));
    } else {
        lemma_vacant_has(engine, from + 1, to, position);
        let rest = engine.vacant(from + 1, to);
        let i = choose|i: int| 0 <= i < rest.len() && rest[i] == Height(position);
        if engine.occupied(from as u64) {
            assert(all[i] == Height(position));
        } else {
            assert(all[i + 1] == Height(position));
        }
    }
}

/// An engine with the same progress and nothing live.
pub open spec fn idle(engine: EngineView) -> EngineView {
    EngineView {
        requested: Set::empty(),
        pending: Map::empty(),
        deadlines: Map::empty(),
        ..engine
    }
}

/// What replaying a certificate certifies, and which certificates it holds on to.
pub proof fn lemma_replayed(engine: EngineView, certificate: CertificateView)
    requires
        engine.well_formed(),
        engine.replay_error(certificate, true) is None,
    ensures
        idle(engine).well_formed(),
        idle(engine.replayed(certificate)) == idle(engine).replayed(certificate),
        idle(engine).replayed(certificate).well_formed(),
        idle(engine).replayed(certificate).certified() == engine.certified().insert(
            certificate.position(),
        ),
        engine.replayed(certificate).frontier >= engine.frontier,
        forall|position: u64| #[trigger]
            engine.replayed(certificate).confirmed.contains_key(position) ==> {
                let held = engine.replayed(certificate).confirmed[position];
                if position == certificate.position() {
                    held == certificate
                } else {
                    engine.confirmed.contains_key(position) && held == engine.confirmed[position]
                }
            },
{
    let still = idle(engine);
    assert(still.pending.dom() =~= Set::<u64>::empty());
    assert(still.certified() =~= engine.certified());
    if certificate.position() >= engine.frontier {
        lemma_advanced(still, certificate);
    } else {
        assert(engine.certified().insert(certificate.position()) =~= engine.certified());
    }
}

/// Two certificates of different positions may be replayed in either order: neither makes the other
/// refused, and the engine holds the same in the end.
pub proof fn law_replay_order_does_not_matter(
    engine: EngineView,
    a: CertificateView,
    b: CertificateView,
)
    requires
        engine.well_formed(),
        a.position() != b.position(),
        engine.replay_error(a, true) is None,
        engine.replay_error(b, true) is None,
    ensures
        engine.after_replay(a, true).replay_error(b, true) is None,
        engine.after_replay(b, true).replay_error(a, true) is None,
        engine.after_replay(a, true).after_replay(b, true) == engine.after_replay(
            b,
            true,
        ).after_replay(a, true),
{
    let after_a = engine.replayed(a);
    let after_b = engine.replayed(b);
    lemma_replayed(engine, a);
    lemma_replayed(engine, b);
    assert(after_a.replay_error(b, true) is None);
    assert(after_b.replay_error(a, true) is None);
    let x = after_a.replayed(b);
    let y = after_b.replayed(a);
    lemma_replayed(idle(after_a), b);
    lemma_replayed(idle(after_b), a);
    assert(idle(idle(after_a)) == idle(after_a));
    assert(idle(idle(after_b)) == idle(after_b));
    assert(idle(x) == idle(after_a).replayed(b));
    assert(idle(y) == idle(after_b).replayed(a));
    assert(idle(x).certified() =~= engine.certified().insert(a.position()).insert(b.position()));
    assert(idle(y).certified() =~= engine.certified().insert(a.position()).insert(b.position()));
    law_certified_determines_progress(idle(x), idle(y));
    assert forall|position: u64| #[trigger] x.confirmed.contains_key(position) implies
        x.confirmed[position] == y.confirmed[position] by {
        assert(x.confirmed.dom().contains(position) == y.confirmed.dom().contains(position));
        assert(y.confirmed.contains_key(position));
    }
    assert(x.confirmed =~= y.confirmed);
    assert(x =~= y);
}

/// Replaying a certificate again changes nothing. It is not refused, so it is reported again.
pub proof fn law_replaying_again_changes_nothing(engine: EngineView, certificate: CertificateView)
    requires
        engine.well_formed(),
        engine.replay_error(certificate, true) is None,
    ensures
        engine.after_replay(certificate, true).replay_error(certificate, true) is None,
        engine.after_replay(certificate, true).after_replay(certificate, true)
            == engine.after_replay(certificate, true),
{
    let once = engine.replayed(certificate);
    lemma_replayed(engine, certificate);
    assert(once.replay_error(certificate, true) is None);
    let twice = once.replayed(certificate);
    lemma_replayed(idle(once), certificate);
    assert(idle(idle(once)) == idle(once));
    assert(idle(twice).certified() =~= idle(once).certified());
    law_certified_determines_progress(idle(once), idle(twice));
    assert forall|position: u64| #[trigger] twice.confirmed.contains_key(position) implies
        twice.confirmed[position] == once.confirmed[position] by {
        assert(once.confirmed.dom().contains(position));
        assert(once.confirmed.contains_key(position));
    }
    assert(twice.confirmed =~= once.confirmed);
    assert(twice =~= once);
}

/// What is certified determines the frontier, whether an engine is complete, and the positions of
/// the certificates it holds, however it came by them.
pub proof fn law_certified_determines_progress(a: EngineView, b: EngineView)
    requires
        a.well_formed(),
        b.well_formed(),
        a.config == b.config,
        a.certified() == b.certified(),
    ensures
        a.frontier == b.frontier,
        a.complete == b.complete,
        a.confirmed.dom() == b.confirmed.dom(),
{
    law_complete_iff_all_certified(a);
    law_complete_iff_all_certified(b);
    law_frontier_is_lowest_uncertified(a, b.frontier);
    law_frontier_is_lowest_uncertified(b, a.frontier);
    assert(a.complete == b.complete);
    assert(a.frontier == b.frontier);
    assert forall|position: u64| a.confirmed.contains_key(position) == b.confirmed.contains_key(
        position,
    ) by {
        assert(a.certified().contains(position) == b.certified().contains(position));
        if a.confirmed.contains_key(position) {
            assert(a.certified().contains(position));
        }
        if b.confirmed.contains_key(position) {
            assert(b.certified().contains(position));
        }
    }
    assert(a.confirmed.dom() =~= b.confirmed.dom());
}

} // verus!
