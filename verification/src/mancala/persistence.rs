use crate::mancala::counting::ways;
use crate::mancala::endgames_table::{MancalaEndgamesTable, TableEntry};
use crate::mancala::game_state::MancalaGameState;
use vstd::prelude::*;

verus! {

/// The byte that stands for an evaluation in the file: the evaluation's eight
/// bits, read as a number without sign.
pub open spec fn byte_of(evaluation: i8) -> u8 {
    if evaluation >= 0 {
        evaluation as u8
    } else {
        (evaluation + 256) as u8
    }
}

/// The evaluation that a byte of the file stands for: the byte's eight bits,
/// read as a number with sign.
pub open spec fn evaluation_of(byte: u8) -> i8 {
    if byte < 128 {
        byte as i8
    } else {
        (byte - 256) as i8
    }
}

/// An evaluation read back from the byte that stands for it is the evaluation
/// itself, and a byte written back from its evaluation is the byte itself.
pub proof fn lemma_byte_round_trip(evaluation: i8, byte: u8)
    ensures
        evaluation_of(byte_of(evaluation)) == evaluation,
        byte_of(evaluation_of(byte)) == byte,
{
}

/// The bytes that stand for `entries`, one for each.
pub open spec fn bytes_of(entries: Seq<TableEntry>) -> Seq<u8> {
    Seq::new(entries.len(), |i: int| byte_of(entries[i].evaluation))
}

/// The entries that `bytes` stand for, one for each.
pub open spec fn entries_of(bytes: Seq<u8>) -> Seq<TableEntry> {
    Seq::new(bytes.len(), |i: int| TableEntry { evaluation: evaluation_of(bytes[i]) })
}

/// The four bytes of `value`, the least significant first.
pub open spec fn little_endian(value: u32) -> Seq<u8> {
    seq![
        (value % 256) as u8,
        (value / 256 % 256) as u8,
        (value / 65536 % 256) as u8,
        (value / 16777216) as u8,
    ]
}

/// The four bytes of `value`, the most significant first.
pub open spec fn big_endian(value: u32) -> Seq<u8> {
    seq![
        (value / 16777216) as u8,
        (value / 65536 % 256) as u8,
        (value / 256 % 256) as u8,
        (value % 256) as u8,
    ]
}

/// `bytes` are the four bytes of `value` in the byte order of some machine:
/// the least significant first, or the most significant first.
pub open spec fn native_order(value: u32, bytes: Seq<u8>) -> bool {
    bytes == little_endian(value) || bytes == big_endian(value)
}

/// Four bytes stand for at most two numbers: the one that they spell from the
/// least significant byte on, and the one that they spell from the most
/// significant byte on.
pub proof fn lemma_native_order(value: u32, bytes: Seq<u8>)
    requires
        native_order(value, bytes),
    ensures
        bytes.len() == 4,
        value == bytes[0] + 256 * bytes[1] + 65536 * bytes[2] + 16777216 * bytes[3] || value
            == bytes[3] + 256 * bytes[2] + 65536 * bytes[1] + 16777216 * bytes[0],
{
}

/// The four bytes of `value` in the byte order of this machine, as
/// `u32::to_ne_bytes` gives them: by its documentation, what `to_le_bytes` or
/// what `to_be_bytes` gives, as the machine has it. Which of the two is not
/// said.
#[verifier::external_body]
fn native_bytes(value: u32) -> (bytes: [u8; 4])
    ensures
        native_order(value, bytes@),
{
    value.to_ne_bytes()
}

/// The number that four bytes stand for in the byte order of this machine, as
/// `u32::from_ne_bytes` gives it: by its documentation, what `from_le_bytes`
/// or what `from_be_bytes` gives, as the machine has it. Which of the two is
/// not said.
#[verifier::external_body]
fn native_value(bytes: [u8; 4]) -> (value: u32)
    ensures
        native_order(value, bytes@),
{
    u32::from_ne_bytes(bytes)
}

/// Why bytes are not an endgame table.
#[derive(Clone, Copy, Debug, PartialEq, Eq)]
pub enum EndgamesFileError {
    /// There are fewer than the four bytes of the number of stones.
    TooShort,
    /// The number of stones is greater than that of the game, or a table for
    /// it cannot be counted on this machine.
    TooManyStones,
    /// The bytes after the number of stones are not as many as the positions
    /// of a table for that number of stones.
    WrongLength,
}

/// What reading the entries of a table for up to `max_stones` stones from
/// `payload` gives: the table that is ready to be consulted for the boards of
/// the game, where the stones are no more than those of the game, the
/// positions can be counted on this machine, and the bytes are as many as the
/// positions; else the reason why there is none.
pub open spec fn loads(
    max_stones: u32,
    payload: Seq<u8>,
    loaded: Result<MancalaEndgamesTable, EndgamesFileError>,
) -> bool {
    match loaded {
        Ok(endgames_table) => {
            &&& max_stones <= MancalaGameState::TOTAL_STONES
            &&& ways(max_stones as nat, 13) == payload.len()
            &&& endgames_table.is_ready()
            &&& endgames_table.max_stones == max_stones
            &&& endgames_table.current_stones == max_stones
            &&& endgames_table.stones_in_play == MancalaGameState::TOTAL_STONES
            &&& endgames_table.table@ == entries_of(payload)
        },
        Err(EndgamesFileError::TooManyStones) => max_stones > MancalaGameState::TOTAL_STONES
            || ways(max_stones as nat, 13) > usize::MAX,
        Err(EndgamesFileError::WrongLength) => {
            &&& max_stones <= MancalaGameState::TOTAL_STONES
            &&& ways(max_stones as nat, 13) <= usize::MAX
            &&& ways(max_stones as nat, 13) != payload.len()
        },
        Err(EndgamesFileError::TooShort) => false,
    }
}

impl MancalaEndgamesTable {
    /// The table as the bytes of its file: the number of stones in the byte
    /// order of this machine, then one byte for each entry.
    pub fn to_bytes(&self) -> (bytes: Vec<u8>)
        ensures
            bytes@.len() == 4 + self.table@.len(),
            native_order(self.max_stones, bytes@.subrange(0, 4)),
            bytes@.subrange(4, bytes@.len() as int) == bytes_of(self.table@),
    {
        let num_stones_data = native_bytes(self.max_stones);
        let bytes = self.framed(num_stones_data);
        proof {
            assert(bytes@.subrange(0, 4) =~= num_stones_data@);
            assert(bytes@.subrange(4, bytes@.len() as int) =~= bytes_of(self.table@));
        }
        bytes
    }

    /// The bytes of a file that starts with `header`: the four bytes of the
    /// header, then one byte for each entry of the table.
    pub fn framed(&self, header: [u8; 4]) -> (bytes: Vec<u8>)
        ensures
            bytes@ == header@ + bytes_of(self.table@),
    {
        let mut bytes: Vec<u8> = Vec::new();
        bytes.push(header[0]);
        bytes.push(header[1]);
        bytes.push(header[2]);
        bytes.push(header[3]);
        let mut i: usize = 0;
        while i < self.table.len()
            invariant
                i <= self.table@.len(),
                bytes@.len() == 4 + i,
                forall|j: int| 0 <= j < 4 ==> bytes@[j] == header@[j],
                forall|j: int| 0 <= j < i ==> bytes@[4 + j] == byte_of(self.table@[j].evaluation),
            decreases self.table@.len() - i,
        {
            let evaluation = self.table[i].evaluation;
            let byte = if evaluation >= 0 {
                evaluation as u8
            } else {
                (evaluation as i16 + 256) as u8
            };
            bytes.push(byte);
            i += 1;
        }
        assert(bytes@ =~= header@ + bytes_of(self.table@));
        bytes
    }

    /// The first four bytes of a file, which hold the number of stones.
    pub fn header(data: &[u8]) -> (bytes: [u8; 4])
        requires
            data@.len() >= 4,
        ensures
            bytes@ == data@.subrange(0, 4),
    {
        let bytes = [data[0], data[1], data[2], data[3]];
        assert(bytes@ =~= data@.subrange(0, 4));
        bytes
    }

    /// The table for up to `max_stones` stones whose entries the bytes of
    /// `payload` stand for: ready to be consulted for the boards of the game.
    pub fn from_entries(max_stones: u32, payload: &[u8]) -> (loaded: Result<
        MancalaEndgamesTable,
        EndgamesFileError,
    >)
        ensures
            loads(max_stones, payload@, loaded),
    {
        let size = match Self::table_size(max_stones) {
            Some(size) => size,
            None => {
                return Err(EndgamesFileError::TooManyStones);
            },
        };
        if payload.len() != size {
            return Err(EndgamesFileError::WrongLength);
        }
        let mut endgames_table = Self::new(max_stones);
        let mut i: usize = 0;
        while i < payload.len()
            invariant
                i <= payload@.len(),
                endgames_table.cache_ready(),
                endgames_table.max_stones == max_stones,
                endgames_table.table@.len() == i,
                forall|j: int|
                    0 <= j < i ==> endgames_table.table@[j] == (TableEntry {
                        evaluation: evaluation_of(payload@[j]),
                    }),
            decreases payload@.len() - i,
        {
            let byte = payload[i];
            let evaluation = if byte < 128 {
                byte as i8
            } else {
                (byte as i16 - 256) as i8
            };
            endgames_table.table.push(TableEntry { evaluation });
            i += 1;
        }
        endgames_table.current_stones = max_stones;
        endgames_table.stones_in_play = MancalaGameState::TOTAL_STONES;
        assert(endgames_table.table@ =~= entries_of(payload@));
        Ok(endgames_table)
    }

    /// The table that the bytes of a file stand for: the number of stones in
    /// the byte order of this machine, then one byte for each entry. The bytes
    /// are refused where they are too few to hold the number of stones; else
    /// the answer is that of `from_entries` for the number that the first four
    /// bytes stand for, read from the least or from the most significant byte
    /// on as the machine has it.
    pub fn from_bytes(data: &[u8]) -> (loaded: Result<MancalaEndgamesTable, EndgamesFileError>)
        ensures
            data@.len() < 4 <==> loaded == Err::<MancalaEndgamesTable, EndgamesFileError>(
                EndgamesFileError::TooShort,
            ),
            data@.len() >= 4 ==> exists|max_stones: u32|
                native_order(max_stones, data@.subrange(0, 4)) && loads(
                    max_stones,
                    data@.subrange(4, data@.len() as int),
                    loaded,
                ),
    {
        if data.len() < 4 {
            return Err(EndgamesFileError::TooShort);
        }
        let max_stones = native_value(Self::header(data));
        let (_, table_data) = data.split_at(4);
        let loaded = Self::from_entries(max_stones, table_data);
        assert(native_order(max_stones, data@.subrange(0, 4)) && loads(
            max_stones,
            data@.subrange(4, data@.len() as int),
            loaded,
        ));
        loaded
    }
}

} // verus!
