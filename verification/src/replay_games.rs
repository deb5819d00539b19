//! The replayed games of a generation. Each replayed participant view names its game;
//! the views of one game are grouped, games in order of generation and game index, and
//! the views of a game in order of opponent label and model index.
use vstd::prelude::*;

use crate::live_replay::{opponent_label_for_slot, opponent_labels};
use crate::schedule::GameAssignment;

verus! {

/// One replayed participant view.
#[derive(Clone, Debug)]
pub struct ReplayGameEntry {
    pub generation: usize,
    pub game_index: usize,
    pub model_index: usize,
    pub opponent_label: Vec<u8>,
    pub reward: i32,
}

pub struct ReplayGameEntryView {
    pub generation: usize,
    pub game_index: usize,
    pub model_index: usize,
    pub opponent_label: Seq<u8>,
    pub reward: i32,
}

impl View for ReplayGameEntry {
    type V = ReplayGameEntryView;

    open spec fn view(&self) -> ReplayGameEntryView {
        ReplayGameEntryView {
            generation: self.generation,
            game_index: self.game_index,
            model_index: self.model_index,
            opponent_label: self.opponent_label@,
            reward: self.reward,
        }
    }
}

pub open spec fn entries_view(entries: Seq<ReplayGameEntry>) -> Seq<ReplayGameEntryView> {
    entries.map_values(|e: ReplayGameEntry| e@)
}

/// `a` comes before `b` in byte order, as `str` ordering compares.
pub open spec fn bytes_before(a: Seq<u8>, b: Seq<u8>) -> bool
    decreases a.len(),
{
    if a.len() == 0 {
        b.len() > 0
    } else if b.len() == 0 {
        false
    } else if a[0] < b[0] {
        true
    } else if a[0] > b[0] {
        false
    } else {
        bytes_before(a.subrange(1, a.len() as int), b.subrange(1, b.len() as int))
    }
}

proof fn lemma_bytes_before_irreflexive(a: Seq<u8>)
    ensures
        !bytes_before(a, a),
    decreases a.len(),
{
    if a.len() > 0 {
        lemma_bytes_before_irreflexive(a.subrange(1, a.len() as int));
    }
}

proof fn lemma_bytes_before_transitive(a: Seq<u8>, b: Seq<u8>, c: Seq<u8>)
    requires
        bytes_before(a, b),
        bytes_before(b, c),
    ensures
        bytes_before(a, c),
    decreases a.len(),
{
    if a.len() > 0 && b.len() > 0 && c.len() > 0 && a[0] == b[0] && b[0] == c[0] {
        lemma_bytes_before_transitive(
            a.subrange(1, a.len() as int),
            b.subrange(1, b.len() as int),
            c.subrange(1, c.len() as int),
        );
    }
}

proof fn lemma_bytes_before_total(a: Seq<u8>, b: Seq<u8>)
    ensures
        bytes_before(a, b) || bytes_before(b, a) || a == b,
    decreases a.len(),
{
    if a.len() > 0 && b.len() > 0 && a[0] == b[0] {
        lemma_bytes_before_total(a.subrange(1, a.len() as int), b.subrange(1, b.len() as int));
        if a.subrange(1, a.len() as int) == b.subrange(1, b.len() as int) {
            assert(a =~= seq![a[0]] + a.subrange(1, a.len() as int));
            assert(b =~= seq![b[0]] + b.subrange(1, b.len() as int));
        }
    } else if a.len() == 0 && b.len() == 0 {
        assert(a =~= b);
    }
}

proof fn lemma_bytes_before_asymmetric(a: Seq<u8>, b: Seq<u8>)
    requires
        bytes_before(a, b),
    ensures
        !bytes_before(b, a),
{
    if bytes_before(b, a) {
        lemma_bytes_before_transitive(a, b, a);
        lemma_bytes_before_irreflexive(a);
    }
}

/// Whether `a` comes before `b`, comparing byte by byte.
fn bytes_less(a: &[u8], b: &[u8]) -> (less: bool)
    ensures
        less == bytes_before(a@, b@),
{
    let mut i: usize = 0;
    proof {
        assert(a@.subrange(0, a@.len() as int) =~= a@);
        assert(b@.subrange(0, b@.len() as int) =~= b@);
    }
    while i < a.len() && i < b.len() && a[i] == b[i]
        invariant
            i <= a.len(),
            i <= b.len(),
            bytes_before(a@.subrange(i as int, a@.len() as int), b@.subrange(i as int, b@.len() as int))
                == bytes_before(a@, b@),
        decreases a.len() - i,
    {
        proof {
            let ra = a@.subrange(i as int, a@.len() as int);
            let rb = b@.subrange(i as int, b@.len() as int);
            assert(ra.subrange(1, ra.len() as int) =~= a@.subrange(i + 1, a@.len() as int));
            assert(rb.subrange(1, rb.len() as int) =~= b@.subrange(i + 1, b@.len() as int));
        }
        i += 1;
    }
    if i == a.len() {
        i < b.len()
    } else if i == b.len() {
        false
    } else {
        a[i] < b[i]
    }
}

/// Entry `i` comes before entry `j`: by generation, game index, opponent label, model
/// index, and then by position.
pub open spec fn entry_before(entries: Seq<ReplayGameEntryView>, i: int, j: int) -> bool {
    let a = entries[i];
    let b = entries[j];
    if a.generation != b.generation {
        a.generation < b.generation
    } else if a.game_index != b.game_index {
        a.game_index < b.game_index
    } else if a.opponent_label != b.opponent_label {
        bytes_before(a.opponent_label, b.opponent_label)
    } else if a.model_index != b.model_index {
        a.model_index < b.model_index
    } else {
        i < j
    }
}

proof fn lemma_entry_before_order(entries: Seq<ReplayGameEntryView>, i: int, j: int, k: int)
    ensures
        i != j ==> (entry_before(entries, i, j) || entry_before(entries, j, i)),
        entry_before(entries, i, j) ==> !entry_before(entries, j, i),
        entry_before(entries, i, j) && entry_before(entries, j, k) ==> entry_before(entries, i, k),
{
    let a = entries[i].opponent_label;
    let b = entries[j].opponent_label;
    let c = entries[k].opponent_label;
    lemma_bytes_before_total(a, b);
    if bytes_before(a, b) {
        lemma_bytes_before_asymmetric(a, b);
    }
    if bytes_before(b, a) {
        lemma_bytes_before_asymmetric(b, a);
    }
    if bytes_before(a, b) && bytes_before(b, c) {
        lemma_bytes_before_transitive(a, b, c);
    }
    if entry_before(entries, i, j) && entry_before(entries, j, k) {
        if entries[i].generation == entries[j].generation && entries[j].generation
            == entries[k].generation && entries[i].game_index == entries[j].game_index
            && entries[j].game_index == entries[k].game_index {
            if a != b && b == c {
            } else if a == b && b != c {
            } else if a != b && b != c {
                if a == c {
                    lemma_bytes_before_asymmetric(a, b);
                }
            }
        }
    }
}

fn entry_is_before(entries: &[ReplayGameEntry], i: usize, j: usize) -> (before: bool)
    requires
        i < entries.len(),
        j < entries.len(),
    ensures
        before == entry_before(entries_view(entries@), i as int, j as int),
{
    let a = &entries[i];
    let b = &entries[j];
    proof {
        assert(entries_view(entries@)[i as int] == a@);
        assert(entries_view(entries@)[j as int] == b@);
    }
    if a.generation != b.generation {
        return a.generation < b.generation;
    }
    if a.game_index != b.game_index {
        return a.game_index < b.game_index;
    }
    let a_first = bytes_less(a.opponent_label.as_slice(), b.opponent_label.as_slice());
    let b_first = bytes_less(b.opponent_label.as_slice(), a.opponent_label.as_slice());
    proof {
        lemma_bytes_before_total(a.opponent_label@, b.opponent_label@);
        lemma_bytes_before_irreflexive(a.opponent_label@);
    }
    if a_first {
        return true;
    }
    if b_first {
        return false;
    }
    if a.model_index != b.model_index {
        return a.model_index < b.model_index;
    }
    i < j
}

/// `order` lists every entry index once, in `entry_before` order.
pub open spec fn is_entry_order(order: Seq<usize>, entries: Seq<ReplayGameEntryView>) -> bool {
    &&& order.len() == entries.len()
    &&& forall|k: int| 0 <= k < order.len() ==> #[trigger] order[k] < entries.len()
    &&& forall|a: int, b: int|
        0 <= a < b < order.len() ==> entry_before(entries, #[trigger] order[a] as int, #[trigger] order[b] as int)
    &&& forall|i: int| 0 <= i < entries.len() ==> #[trigger] order.contains(i as usize)
}

fn entry_order(entries: &[ReplayGameEntry]) -> (order: Vec<usize>)
    ensures
        is_entry_order(order@, entries_view(entries@)),
{
    let ghost view = entries_view(entries@);
    let mut order: Vec<usize> = Vec::new();
    let mut i: usize = 0;
    while i < entries.len()
        invariant
            i <= entries.len(),
            view == entries_view(entries@),
            order@.len() == i,
            forall|k: int| 0 <= k < order@.len() ==> #[trigger] order@[k] < i,
            forall|a: int, b: int|
                0 <= a < b < order@.len() ==> entry_before(
                    view,
                    #[trigger] order@[a] as int,
                    #[trigger] order@[b] as int,
                ),
            forall|m: int| 0 <= m < i ==> #[trigger] order@.contains(m as usize),
        decreases entries.len() - i,
    {
        let ghost before = order@;
        let mut pos: usize = 0;
        while pos < order.len() && entry_is_before(entries, order[pos], i)
            invariant
                pos <= order.len(),
                order@ == before,
                i < entries.len(),
                view == entries_view(entries@),
                forall|k: int| 0 <= k < order@.len() ==> #[trigger] order@[k] < i,
                forall|j: int| 0 <= j < pos ==> entry_before(view, #[trigger] before[j] as int, i as int),
            decreases order.len() - pos,
        {
            pos += 1;
        }
        proof {
            if pos < before.len() {
                lemma_entry_before_order(view, i as int, before[pos as int] as int, 0);
                assert(entry_before(view, i as int, before[pos as int] as int));
            }
        }
        order.insert(pos, i);
        proof {
            assert forall|a: int, b: int| 0 <= a < b < order@.len() implies entry_before(
                view,
                #[trigger] order@[a] as int,
                #[trigger] order@[b] as int,
            ) by {
                if a < pos && b == pos {
                } else if a < pos && b > pos {
                    assert(entry_before(view, before[a] as int, before[b - 1] as int));
                } else if a == pos && b > pos {
                    if b - 1 > pos {
                        assert(entry_before(view, before[pos as int] as int, before[b - 1] as int));
                        lemma_entry_before_order(
                            view,
                            i as int,
                            before[pos as int] as int,
                            before[b - 1] as int,
                        );
                    }
                } else if a > pos {
                    assert(entry_before(view, before[a - 1] as int, before[b - 1] as int));
                } else {
                    assert(entry_before(view, before[a] as int, before[b] as int));
                }
            }
            assert forall|m: int| 0 <= m < i + 1 implies #[trigger] order@.contains(m as usize) by {
                if m == i {
                    assert(order@[pos as int] == i);
                } else {
                    assert(before.contains(m as usize));
                    let k = choose|k: int| 0 <= k < before.len() && before[k] == m as usize;
                    if k < pos {
                        assert(order@[k] == m as usize);
                    } else {
                        assert(order@[k + 1] == m as usize);
                    }
                }
            }
            assert forall|k: int| 0 <= k < order@.len() implies #[trigger] order@[k] < i + 1 by {
                if k < pos {
                    assert(order@[k] == before[k]);
                } else if k > pos {
                    assert(order@[k] == before[k - 1]);
                }
            }
        }
        i += 1;
    }
    order
}

/// Entries `i` and `j` are views of the same game.
pub open spec fn same_game(entries: Seq<ReplayGameEntryView>, i: int, j: int) -> bool {
    entries[i].generation == entries[j].generation && entries[i].game_index
        == entries[j].game_index
}

/// The groups, one after the other.
pub open spec fn flatten(groups: Seq<Seq<usize>>) -> Seq<usize>
    decreases groups.len(),
{
    if groups.len() == 0 {
        Seq::empty()
    } else {
        flatten(groups.drop_last()) + groups.last()
    }
}

/// `groups` splits the ordered entries into games: every group is one game and holds all
/// of its views.
pub open spec fn is_game_grouping(groups: Seq<Seq<usize>>, entries: Seq<ReplayGameEntryView>) -> bool {
    &&& is_entry_order(flatten(groups), entries)
    &&& forall|g: int| 0 <= g < groups.len() ==> (#[trigger] groups[g]).len() > 0
    &&& forall|g: int, a: int, b: int|
        0 <= g < groups.len() && 0 <= a < groups[g].len() && 0 <= b < groups[g].len()
            ==> same_game(entries, #[trigger] groups[g][a] as int, #[trigger] groups[g][b] as int)
    &&& forall|g: int|
        0 <= g < groups.len() - 1 ==> !same_game(
            entries,
            (#[trigger] groups[g]).last() as int,
            groups[g + 1][0] as int,
        )
}

pub open spec fn groups_view(groups: Seq<Vec<usize>>) -> Seq<Seq<usize>> {
    groups.map_values(|g: Vec<usize>| g@)
}

/// The replayed views grouped by game: the games in order of generation and game index,
/// the views of each game in order of opponent label and model index (then position).
/// Each group lists entry indices.
pub fn replay_actual_games(entries: &[ReplayGameEntry]) -> (groups: Vec<Vec<usize>>)
    ensures
        is_game_grouping(groups_view(groups@), entries_view(entries@)),
{
    let ghost view = entries_view(entries@);
    let order = entry_order(entries);
    let mut groups: Vec<Vec<usize>> = Vec::new();
    let mut current: Vec<usize> = Vec::new();
    let mut k: usize = 0;
    while k < order.len()
        invariant
            k <= order@.len(),
            view == entries_view(entries@),
            is_entry_order(order@, view),
            flatten(groups_view(groups@)) + current@ == order@.take(k as int),
            forall|g: int| 0 <= g < groups@.len() ==> (#[trigger] groups@[g])@.len() > 0,
            forall|g: int, a: int, b: int|
                0 <= g < groups@.len() && 0 <= a < groups@[g]@.len() && 0 <= b < groups@[g]@.len()
                    ==> same_game(view, #[trigger] groups@[g]@[a] as int, #[trigger] groups@[g]@[b] as int),
            forall|a: int, b: int|
                0 <= a < current@.len() && 0 <= b < current@.len() ==> same_game(
                    view,
                    #[trigger] current@[a] as int,
                    #[trigger] current@[b] as int,
                ),
            forall|g: int|
                0 <= g < groups@.len() - 1 ==> !same_game(
                    view,
                    (#[trigger] groups@[g])@.last() as int,
                    groups@[g + 1]@[0] as int,
                ),
            groups@.len() > 0 ==> current@.len() > 0 && !same_game(
                view,
                groups@.last()@.last() as int,
                current@[0] as int,
            ),
            k > 0 ==> current@.len() > 0,
            forall|a: int| 0 <= a < current@.len() ==> #[trigger] current@[a] < entries@.len(),
        decreases order@.len() - k,
    {
        let index = order[k];
        let ghost flat = flatten(groups_view(groups@));
        if current.len() > 0 {
            let last = current[current.len() - 1];
            let same = entries[last].generation == entries[index].generation
                && entries[last].game_index == entries[index].game_index;
            proof {
                assert(view[last as int] == entries@[last as int]@);
                assert(view[index as int] == entries@[index as int]@);
            }
            if same {
                let ghost before = current@;
                current.push(index);
                proof {
                    assert forall|a: int, b: int|
                        0 <= a < current@.len() && 0 <= b < current@.len() implies same_game(
                        view,
                        #[trigger] current@[a] as int,
                        #[trigger] current@[b] as int,
                    ) by {
                        if a < before.len() {
                            assert(same_game(view, before[a] as int, before[before.len() - 1] as int));
                        }
                        if b < before.len() {
                            assert(same_game(view, before[b] as int, before[before.len() - 1] as int));
                        }
                    }
                    assert(flat + current@ =~= order@.take(k + 1));
                }
            } else {
                let ghost groups_before = groups_view(groups@);
                let ghost finished = current@;
                let mut next: Vec<usize> = Vec::new();
                next.push(index);
                std::mem::swap(&mut current, &mut next);
                groups.push(next);
                proof {
                    assert(groups_view(groups@) =~= groups_before.push(finished));
                    assert(groups_view(groups@).drop_last() =~= groups_before);
                    assert(flatten(groups_view(groups@)) == flat + finished);
                    assert(flatten(groups_view(groups@)) + current@ =~= order@.take(k + 1));
                    assert(groups@.last()@ == finished);
                    assert(finished.last() == last);
                }
            }
        } else {
            current.push(index);
            proof {
                assert(groups@.len() == 0);
                assert(flatten(groups_view(groups@)) =~= Seq::<usize>::empty());
                assert(flatten(groups_view(groups@)) + current@ =~= order@.take(k + 1));
            }
        }
        k += 1;
    }
    if current.len() > 0 {
        let ghost groups_before = groups_view(groups@);
        let ghost finished = current@;
        groups.push(current);
        proof {
            assert(groups_view(groups@) =~= groups_before.push(finished));
            assert(groups_view(groups@).drop_last() =~= groups_before);
        }
    }
    proof {
        assert(order@.take(order@.len() as int) =~= order@);
        assert(flatten(groups_view(groups@)) == order@);
    }
    groups
}

/// The replayed views of the first `games` captured games: one per seat, with the seat's
/// model, its opponents' labels and its reward.
pub open spec fn captured_views(
    generation: usize,
    assignments: Seq<GameAssignment>,
    rewards: Seq<[i32; 4]>,
    active_player_count: int,
    games: int,
) -> Seq<ReplayGameEntryView>
    decreases games,
{
    if games <= 0 {
        Seq::empty()
    } else {
        let g = games - 1;
        captured_views(generation, assignments, rewards, active_player_count, g) + Seq::new(
            active_player_count as nat,
            |slot: int|
                ReplayGameEntryView {
                    generation,
                    game_index: g as usize,
                    model_index: assignments[g].model_indices@[slot],
                    opponent_label: opponent_labels(
                        assignments[g].model_indices@,
                        slot,
                        active_player_count,
                    ),
                    reward: rewards[g]@[slot],
                },
        )
    }
}

/// How many games are captured: at most `captured_replay_game_count`, and only games
/// with both a seating and a result.
pub open spec fn captured_games(assignments_len: int, rewards_len: int, captured_replay_game_count: int) -> int {
    let played = if assignments_len < rewards_len {
        assignments_len
    } else {
        rewards_len
    };
    if captured_replay_game_count < played {
        captured_replay_game_count
    } else {
        played
    }
}

/// The replayed views of a generation's first captured games, seat by seat.
pub fn replay_games_from_evaluation(
    generation: usize,
    assignments: &[GameAssignment],
    rewards: &[[i32; 4]],
    active_player_count: usize,
    captured_replay_game_count: usize,
) -> (entries: Vec<ReplayGameEntry>)
    requires
        active_player_count <= 4,
    ensures
        entries_view(entries@) == captured_views(
            generation,
            assignments@,
            rewards@,
            active_player_count as int,
            captured_games(
                assignments@.len() as int,
                rewards@.len() as int,
                captured_replay_game_count as int,
            ),
        ),
{
    let played = if assignments.len() < rewards.len() {
        assignments.len()
    } else {
        rewards.len()
    };
    let count = if captured_replay_game_count < played {
        captured_replay_game_count
    } else {
        played
    };
    let mut entries: Vec<ReplayGameEntry> = Vec::new();
    let mut game: usize = 0;
    while game < count
        invariant
            active_player_count <= 4,
            count <= assignments.len(),
            count <= rewards.len(),
            game <= count,
            entries_view(entries@) == captured_views(
                generation,
                assignments@,
                rewards@,
                active_player_count as int,
                game as int,
            ),
        decreases count - game,
    {
        let assignment = &assignments[game];
        let ghost start = entries_view(entries@);
        let mut slot: usize = 0;
        while slot < active_player_count
            invariant
                active_player_count <= 4,
                game < count <= assignments.len(),
                count <= rewards.len(),
                slot <= active_player_count,
                assignment == assignments@[game as int],
                entries_view(entries@) == start + Seq::new(
                    slot as nat,
                    |s: int|
                        ReplayGameEntryView {
                            generation,
                            game_index: game,
                            model_index: assignment.model_indices@[s],
                            opponent_label: opponent_labels(
                                assignment.model_indices@,
                                s,
                                active_player_count as int,
                            ),
                            reward: rewards@[game as int]@[s],
                        },
                ),
            decreases active_player_count - slot,
        {
            let label = opponent_label_for_slot(assignment, active_player_count, slot);
            let entry = ReplayGameEntry {
                generation,
                game_index: game,
                model_index: assignment.model_indices[slot],
                opponent_label: label,
                reward: rewards[game][slot],
            };
            let ghost before = entries_view(entries@);
            entries.push(entry);
            proof {
                assert(entries_view(entries@) =~= before.push(entry@));
                assert(entries_view(entries@) =~= start + Seq::new(
                    (slot + 1) as nat,
                    |s: int|
                        ReplayGameEntryView {
                            generation,
                            game_index: game,
                            model_index: assignment.model_indices@[s],
                            opponent_label: opponent_labels(
                                assignment.model_indices@,
                                s,
                                active_player_count as int,
                            ),
                            reward: rewards@[game as int]@[s],
                        },
                ));
            }
            slot += 1;
        }
        proof {
            assert(entries_view(entries@) =~= captured_views(
                generation,
                assignments@,
                rewards@,
                active_player_count as int,
                game + 1,
            ));
        }
        game += 1;
    }
    entries
}

} // verus!
