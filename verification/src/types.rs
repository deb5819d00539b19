//! Plain game types shared by the encoder, the decoder and the simulator.
use vstd::prelude::*;

verus! {

/// The planet id of an empty encoder row.
pub const NO_PLANET_ID: i32 = -1;

/// Number of launch amount classes.
pub const AMOUNT_CLASS_COUNT: usize = 16;

/// How many ships a launch sends: a share of the garrison or a fixed count.
#[derive(Clone, Copy, Debug, PartialEq, Eq, Structural)]
pub enum AmountClass {
    AllIn,
    Percent25,
    Percent50,
    Percent67,
    Percent70,
    Percent75,
    Percent90,
    Percent95,
    Ships10,
    Ships20,
    Ships50,
    Ships100,
    Ships200,
    Ships500,
    Ships1000,
    Ships2000,
}

/// The position of each class in the model's amount logits.
pub open spec fn amount_class_index(class: AmountClass) -> int {
    match class {
        AmountClass::AllIn => 0,
        AmountClass::Percent25 => 1,
        AmountClass::Percent50 => 2,
        AmountClass::Percent67 => 3,
        AmountClass::Percent70 => 4,
        AmountClass::Percent75 => 5,
        AmountClass::Percent90 => 6,
        AmountClass::Percent95 => 7,
        AmountClass::Ships10 => 8,
        AmountClass::Ships20 => 9,
        AmountClass::Ships50 => 10,
        AmountClass::Ships100 => 11,
        AmountClass::Ships200 => 12,
        AmountClass::Ships500 => 13,
        AmountClass::Ships1000 => 14,
        AmountClass::Ships2000 => 15,
    }
}

impl AmountClass {
    /// The class at position `index` of the amount logits.
    pub fn from_index(index: usize) -> (class: Option<AmountClass>)
        ensures
            index < AMOUNT_CLASS_COUNT <==> class is Some,
            class matches Some(c) ==> amount_class_index(c) == index,
    {
        match index {
            0 => Some(AmountClass::AllIn),
            1 => Some(AmountClass::Percent25),
            2 => Some(AmountClass::Percent50),
            3 => Some(AmountClass::Percent67),
            4 => Some(AmountClass::Percent70),
            5 => Some(AmountClass::Percent75),
            6 => Some(AmountClass::Percent90),
            7 => Some(AmountClass::Percent95),
            8 => Some(AmountClass::Ships10),
            9 => Some(AmountClass::Ships20),
            10 => Some(AmountClass::Ships50),
            11 => Some(AmountClass::Ships100),
            12 => Some(AmountClass::Ships200),
            13 => Some(AmountClass::Ships500),
            14 => Some(AmountClass::Ships1000),
            15 => Some(AmountClass::Ships2000),
            _ => None,
        }
    }
}

/// Every class sits at exactly one index: distinct classes have distinct indices,
/// and every index is below the class count.
pub proof fn law_amount_class_indices_are_distinct(a: AmountClass, b: AmountClass)
    ensures
        0 <= amount_class_index(a) < AMOUNT_CLASS_COUNT,
        amount_class_index(a) == amount_class_index(b) ==> a == b,
{
}

/// Ships a player holds on planets and in fleets.
#[derive(Clone, Copy, Debug, PartialEq, Eq, Structural)]
pub struct PlayerScore {
    pub player: i32,
    pub ships: i32,
}

#[derive(Clone, Copy, Debug, PartialEq, Eq, Structural)]
pub enum GeometryError {
    NonFiniteCoordinate,
    NonPositiveSpeed,
}

#[derive(Clone, Copy, Debug, PartialEq, Eq, Structural)]
pub enum EncodeError {
    InvalidConfig,
    InvalidOwnerClass,
    MissingHomePlanet,
    RowOverflow,
}

#[derive(Clone, Copy, Debug, PartialEq, Eq, Structural)]
pub enum DecodeError {
    NonFiniteModelOutput,
    InvalidAmountClass,
    Geometry(GeometryError),
}

impl From<GeometryError> for DecodeError {
    fn from(value: GeometryError) -> (error: DecodeError) {
        DecodeError::Geometry(value)
    }
}

impl vstd::std_specs::convert::FromSpecImpl<GeometryError> for DecodeError {
    open spec fn obeys_from_spec() -> bool {
        true
    }

    open spec fn from_spec(value: GeometryError) -> DecodeError {
        DecodeError::Geometry(value)
    }
}

/// The planet of each encoder row; empty rows hold `NO_PLANET_ID`.
#[derive(Clone, Debug)]
pub struct EncodedState {
    pub row_planet_ids: Vec<i32>,
}

/// Indices of the rows of `ids` that hold a planet, in order.
pub open spec fn active_rows(ids: Seq<i32>) -> Seq<usize>
    decreases ids.len(),
{
    if ids.len() == 0 {
        Seq::empty()
    } else if ids.last() == NO_PLANET_ID {
        active_rows(ids.drop_last())
    } else {
        active_rows(ids.drop_last()).push((ids.len() - 1) as usize)
    }
}

impl EncodedState {
    /// The rows that hold a planet.
    pub fn active_row_indices(&self) -> (rows: Vec<usize>)
        ensures
            rows@ == active_rows(self.row_planet_ids@),
    {
        let mut rows: Vec<usize> = Vec::new();
        let mut row_index: usize = 0;
        while row_index < self.row_planet_ids.len()
            invariant
                row_index <= self.row_planet_ids.len(),
                rows@ == active_rows(self.row_planet_ids@.take(row_index as int)),
            decreases self.row_planet_ids.len() - row_index,
        {
            proof {
                assert(self.row_planet_ids@.take(row_index + 1).drop_last()
                    =~= self.row_planet_ids@.take(row_index as int));
            }
            if self.row_planet_ids[row_index] != NO_PLANET_ID {
                rows.push(row_index);
            }
            row_index += 1;
        }
        proof {
            assert(self.row_planet_ids@.take(self.row_planet_ids@.len() as int)
                =~= self.row_planet_ids@);
        }
        rows
    }
}

/// Every active row holds a planet, the rows come in increasing order, and every row
/// that holds a planet is listed.
pub proof fn law_active_rows_are_the_planet_rows(ids: Seq<i32>)
    requires
        ids.len() <= usize::MAX,
    ensures
        forall|k: int|
            0 <= k < active_rows(ids).len() ==> #[trigger] active_rows(ids)[k] < ids.len()
                && ids[active_rows(ids)[k] as int] != NO_PLANET_ID,
        forall|k: int, l: int|
            0 <= k < l < active_rows(ids).len() ==> active_rows(ids)[k] < active_rows(ids)[l],
        forall|row: int|
            0 <= row < ids.len() && ids[row] != NO_PLANET_ID ==> active_rows(ids).contains(
                row as usize,
            ),
    decreases ids.len(),
{
    if ids.len() > 0 {
        let shorter = ids.drop_last();
        law_active_rows_are_the_planet_rows(shorter);
        assert forall|row: int| 0 <= row < ids.len() && ids[row] != NO_PLANET_ID implies active_rows(
            ids,
        ).contains(row as usize) by {
            if row < ids.len() - 1 {
                assert(shorter[row] == ids[row]);
                let k = choose|k: int|
                    0 <= k < active_rows(shorter).len() && active_rows(shorter)[k] == row as usize;
                assert(active_rows(ids)[k] == row as usize);
            } else {
                assert(active_rows(ids).last() == row as usize);
            }
        }
    }
}

/// Position of `planet_id` in the comet list, or the list's length when it is no comet.
pub open spec fn comet_position(planet_id: i32, comet_planet_ids: Seq<i32>) -> int {
    if exists|i: int| 0 <= i < comet_planet_ids.len() && comet_planet_ids[i] == planet_id {
        choose|i: int|
            0 <= i < comet_planet_ids.len() && comet_planet_ids[i] == planet_id && forall|j: int|
                0 <= j < i ==> comet_planet_ids[j] != planet_id
    } else {
        comet_planet_ids.len() as int
    }
}

/// Orders comet rows by the comet list, after every other planet.
pub fn comet_order(planet_id: i32, comet_planet_ids: &[i32]) -> (order: usize)
    ensures
        order == comet_position(planet_id, comet_planet_ids@),
{
    let mut i: usize = 0;
    while i < comet_planet_ids.len()
        invariant
            i <= comet_planet_ids.len(),
            forall|j: int| 0 <= j < i ==> comet_planet_ids@[j] != planet_id,
        decreases comet_planet_ids.len() - i,
    {
        if comet_planet_ids[i] == planet_id {
            proof {
                let first = choose|k: int|
                    0 <= k < comet_planet_ids@.len() && comet_planet_ids@[k] == planet_id
                        && forall|j: int| 0 <= j < k ==> comet_planet_ids@[j] != planet_id;
                assert(0 <= i < comet_planet_ids@.len() && comet_planet_ids@[i as int] == planet_id
                    && forall|j: int| 0 <= j < i ==> comet_planet_ids@[j] != planet_id);
                if first < i {
                    assert(comet_planet_ids@[first] != planet_id);
                }
                if first > i {
                    assert(comet_planet_ids@[i as int] != planet_id);
                }
            }
            return i;
        }
        i += 1;
    }
    comet_planet_ids.len()
}

/// How the encoder sees the owner of a planet from a player's seat.
#[derive(Clone, Copy, Debug, PartialEq, Eq, Structural)]
pub enum OwnerClass {
    Neutral,
    Own,
    /// The planet belongs to the opponent at this rank among the other players.
    Enemy(usize),
}

/// The owner class of a planet owned by `owner`, seen by `player`: neutral for a negative
/// owner, own for the player, otherwise the rank of `owner` among the player ids below
/// `max_players` (as an `i32`) other than `player`, of which the encoder knows three.
pub open spec fn owner_class_spec(owner: i32, player: i32, max_players: usize) -> Result<OwnerClass, EncodeError> {
    if owner < 0 {
        Ok(OwnerClass::Neutral)
    } else if owner == player {
        Ok(OwnerClass::Own)
    } else if player < 0 || owner >= max_players || player >= max_players {
        Err(EncodeError::InvalidOwnerClass)
    } else if owner >= (max_players as i32) {
        Err(EncodeError::InvalidOwnerClass)
    } else {
        let rank = if player < owner {
            owner - 1
        } else {
            owner as int
        };
        if rank < 3 {
            Ok(OwnerClass::Enemy(rank as usize))
        } else {
            Err(EncodeError::InvalidOwnerClass)
        }
    }
}

pub fn owner_class_for_planet(owner: i32, player: i32, max_players: usize) -> (class: Result<OwnerClass, EncodeError>)
    ensures
        class == owner_class_spec(owner, player, max_players),
{
    if owner < 0 {
        return Ok(OwnerClass::Neutral);
    }
    if owner == player {
        return Ok(OwnerClass::Own);
    }
    if player < 0 || owner as usize >= max_players || player as usize >= max_players {
        return Err(EncodeError::InvalidOwnerClass);
    }
    let end = max_players as i32;
    if owner >= end {
        return Err(EncodeError::InvalidOwnerClass);
    }
    let rank: i32 = if player < owner {
        owner - 1
    } else {
        owner
    };
    if rank < 3 {
        Ok(OwnerClass::Enemy(rank as usize))
    } else {
        Err(EncodeError::InvalidOwnerClass)
    }
}

} // verus!
