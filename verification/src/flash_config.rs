//! Config persistence: which bytes are stored under which key, and what is read back.
//!
//! Two 4 KiB sectors at the top of flash hold a small map. The flash itself is
//! driven by the caller.

use vstd::prelude::*;

use crate::config::{BoardProfile, Topology, TopologySpec};
use crate::protocol::{Chip, TOPOLOGY_BUF_LEN};
use crate::wire;
use crate::wire::{profile_from_bytes, profile_to_bytes, topology_from_bytes, topology_to_bytes};

verus! {

/// Key of the topology.
pub const KEY_TOPOLOGY: u8 = 1;

/// Key of the board profile.
pub const KEY_PROFILE: u8 = 2;

/// Size of the item buffer: an encoded topology and the map's overhead.
pub const ITEM_BUF_LEN: usize = 160;

/// Bytes of flash that hold the config map: two sectors.
pub const CONFIG_LEN: u32 = 8192;

/// The flash that the boards of a chip have.
pub open spec fn flash_bytes(chip: Chip) -> u32 {
    match chip {
        Chip::Rp2040 => 2_097_152,
        Chip::Rp2350 => 4_194_304,
    }
}

/// Where the config map starts and ends in flash of the given size.
pub open spec fn config_span(flash_size: u32) -> (int, int) {
    (flash_size - CONFIG_LEN, flash_size as int)
}

/// Total flash size the firmware assumes.
pub fn flash_size(chip: Chip) -> (r: u32)
    ensures
        r == match chip {
            Chip::Rp2040 => 2 * 1024 * 1024u32,
            Chip::Rp2350 => 4 * 1024 * 1024u32,
        },
        r == flash_bytes(chip),
{
    match chip {
        Chip::Rp2040 => 2_097_152,
        Chip::Rp2350 => 4_194_304,
    }
}

/// The range of flash that holds the config map: its last two sectors.
pub fn config_range(flash_size: u32) -> (r: (u32, u32))
    requires
        flash_size >= CONFIG_LEN,
    ensures
        r.1 == flash_size,
        r.1 - r.0 == CONFIG_LEN,
        (r.0 as int, r.1 as int) == config_span(flash_size),
{
    (flash_size - CONFIG_LEN, flash_size)
}

/// One store request.
pub enum CommitItem {
    /// Store this topology.
    Topology(Topology),
    /// Store this board profile.
    Profile(BoardProfile),
}

/// The key and the bytes of what is stored.
pub open spec fn stored_as(item: CommitItem) -> (u8, Seq<u8>) {
    match item {
        CommitItem::Topology(topology) => (KEY_TOPOLOGY, wire::topology_encoding(topology@)),
        CommitItem::Profile(profile) => (KEY_PROFILE, wire::profile_encoding(profile)),
    }
}

/// The key and the bytes to store for an item. They fit the buffer, and decode to
/// the item again, whatever the reader's word size.
pub fn store_item(item: &CommitItem) -> (r: Result<(u8, Vec<u8>), ()>)
    ensures
        r matches Ok((key, bytes)) && (key, bytes@) == stored_as(*item) && bytes@.len()
            <= TOPOLOGY_BUF_LEN,
        item matches CommitItem::Topology(topology) ==> r matches Ok((_, bytes))
            && wire::topology_decoding(bytes@, 32) == Some(topology@) && wire::topology_decoding(
            bytes@,
            64,
        ) == Some(topology@),
        item matches CommitItem::Profile(profile) ==> r matches Ok((_, bytes))
            && wire::profile_decoding(bytes@) == Some(*profile),
{
    match item {
        CommitItem::Topology(topology) => match topology_to_bytes(topology) {
            Ok(bytes) => Ok((KEY_TOPOLOGY, bytes)),
            Err(_) => Err(()),
        },
        CommitItem::Profile(profile) => match profile_to_bytes(profile) {
            Ok(bytes) => Ok((KEY_PROFILE, bytes)),
            Err(_) => Err(()),
        },
    }
}

/// The topology that a reader with words of `word_bits` bits finds under its key.
pub open spec fn loaded_topology(raw: Option<Seq<u8>>, word_bits: nat) -> Option<TopologySpec> {
    match raw {
        Some(bytes) => wire::topology_decoding(bytes, word_bits),
        None => None,
    }
}

/// The board profile that is found under its key.
pub open spec fn loaded_profile(raw: Option<Seq<u8>>) -> Option<BoardProfile> {
    match raw {
        Some(bytes) => wire::profile_decoding(bytes),
        None => None,
    }
}

/// The bytes that the map holds, if any.
pub open spec fn held(raw: Option<Vec<u8>>) -> Option<Seq<u8>> {
    match raw {
        Some(bytes) => Some(bytes@),
        None => None,
    }
}

/// The stored topology, given what the map holds under its key; `None` if that is
/// absent or unreadable.
pub fn load_topology(raw: Option<Vec<u8>>) -> (r: Option<Topology>)
    ensures
        match raw {
            Some(bytes) => match r {
                Some(topology) => wire::topology_decoding(bytes@, usize::BITS as nat) == Some(
                    topology@,
                ),
                None => wire::topology_decoding(bytes@, usize::BITS as nat) is None,
            },
            None => r is None,
        },
        loaded_topology(held(raw), usize::BITS as nat) == match r {
            Some(topology) => Some(topology@),
            None => None,
        },
{
    match raw {
        Some(bytes) => match topology_from_bytes(bytes.as_slice()) {
            Ok(topology) => Some(topology),
            Err(_) => None,
        },
        None => None,
    }
}

/// The stored board profile, given what the map holds under its key; `None` if that
/// is absent or unreadable.
pub fn load_profile(raw: Option<Vec<u8>>) -> (r: Option<BoardProfile>)
    ensures
        match raw {
            Some(bytes) => r == wire::profile_decoding(bytes@),
            None => r is None,
        },
        r == loaded_profile(held(raw)),
{
    match raw {
        Some(bytes) => match profile_from_bytes(bytes.as_slice()) {
            Ok(profile) => Some(profile),
            Err(_) => None,
        },
        None => None,
    }
}

/// The map takes the last two sectors of 4096 bytes, so whole sectors, of the two or four
/// mebibytes that a chip has.
pub proof fn the_map_takes_the_last_sectors(chip: Chip)
    ensures
        chip == Chip::Rp2040 ==> flash_bytes(chip) == 2 * 1024 * 1024,
        chip == Chip::Rp2350 ==> flash_bytes(chip) == 4 * 1024 * 1024,
        config_span(flash_bytes(chip)).1 == flash_bytes(chip),
        config_span(flash_bytes(chip)).0 + 2 * 4096 == config_span(flash_bytes(chip)).1,
        config_span(flash_bytes(chip)).0 % 4096 == 0,
{
}

/// Topologies and profiles are kept apart, each under its key, so that storing the one never
/// replaces the other.
pub proof fn items_are_kept_apart(topology: Topology, profile: BoardProfile)
    ensures
        stored_as(CommitItem::Topology(topology)) == (1u8, wire::topology_encoding(topology@)),
        stored_as(CommitItem::Profile(profile)) == (2u8, wire::profile_encoding(profile)),
{
}

/// What was stored is loaded again, whatever the word size of the reader, and nothing is loaded
/// where nothing was stored. [`wire::topology_to_bytes`] and [`wire::profile_to_bytes`] say of
/// all that they encode that it reads back.
pub proof fn stored_items_are_loaded(topology: Topology, profile: BoardProfile, word_bits: nat)
    requires
        wire::topology_reads_back(topology@),
        wire::profile_reads_back(profile),
        word_bits == 32 || word_bits == 64,
    ensures
        loaded_topology(Some(stored_as(CommitItem::Topology(topology)).1), word_bits) == Some(
            topology@,
        ),
        loaded_profile(Some(stored_as(CommitItem::Profile(profile)).1)) == Some(profile),
        loaded_topology(None, word_bits) is None,
        loaded_profile(None) is None,
{
}

} // verus!
