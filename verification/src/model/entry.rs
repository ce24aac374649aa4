//! Directory entries as values and as bytes.

use vstd::prelude::*;
use vstd::utf8::{decode_utf8, encode_utf8, valid_utf8};
use crate::block::{DIR_ENTRY_SIZE, MAX_NAME_LEN};
use crate::codec::{lemma_u32_roundtrip, u32_bytes, u32_value};
use crate::error::{ErrorView, Outcome};

verus! {

/// The mathematical value of a [`DirEntry`](crate::block::DirEntry).
#[verifier::ext_equal]
pub struct EntryView {
    pub inode: u32,
    pub used: bool,
    pub name_len: u8,
    pub name: Seq<char>,
}

/// The placeholder entry.
pub open spec fn empty_entry() -> EntryView {
    EntryView { inode: 0, used: false, name_len: 0, name: Seq::empty() }
}

/// The entry that names `target`; the length field keeps the low byte of the
/// name's length.
pub open spec fn used_entry(name: Seq<char>, target: u32) -> EntryView {
    EntryView { inode: target, used: true, name_len: encode_utf8(name).len() as u8, name }
}

/// The bytes of a name, cut or padded with zeros to [`MAX_NAME_LEN`].
pub open spec fn name_field(name: Seq<char>) -> Seq<u8> {
    let bytes = encode_utf8(name);
    Seq::new(
        MAX_NAME_LEN as nat,
        |j: int|
            if j < bytes.len() {
                bytes[j]
            } else {
                0u8
            },
    )
}

/// The serialized form of an entry.
pub open spec fn entry_bytes(e: EntryView) -> Seq<u8> {
    u32_bytes(e.inode) + seq![
        if e.used {
            1u8
        } else {
            0u8
        },
        e.name_len,
        0u8,
        0u8,
    ] + name_field(e.name)
}

/// Reads an entry from the front of `s`.
pub open spec fn decode_entry(s: Seq<u8>) -> Outcome<EntryView> {
    if s.len() < DIR_ENTRY_SIZE {
        Err(ErrorView::Corrupt("directory entry truncated"@))
    } else if s[5] > MAX_NAME_LEN {
        Err(ErrorView::Corrupt("directory name overflows slot"@))
    } else if !valid_utf8(s.subrange(8, 8 + s[5])) {
        Err(ErrorView::Corrupt("directory name not utf-8"@))
    } else {
        Ok(
            EntryView {
                inode: u32_value(s.subrange(0, 4)),
                used: s[4] != 0,
                name_len: s[5],
                name: decode_utf8(s.subrange(8, 8 + s[5])),
            },
        )
    }
}

/// An entry whose length field is the length of its name, which fits the slot.
pub open spec fn fits_slot(e: EntryView) -> bool {
    &&& encode_utf8(e.name).len() <= MAX_NAME_LEN
    &&& e.name_len == encode_utf8(e.name).len()
}

/// Decoding undoes encoding, for every entry that fits its slot.
pub proof fn law_entry_roundtrip(e: EntryView)
    requires
        fits_slot(e),
    ensures
        decode_entry(entry_bytes(e)) == Ok::<EntryView, ErrorView>(e),
{
    let s = entry_bytes(e);
    let bytes = encode_utf8(e.name);
    lemma_u32_roundtrip(e.inode);
    assert(s.len() == DIR_ENTRY_SIZE);
    assert(s.subrange(0, 4) =~= u32_bytes(e.inode));
    assert(s.subrange(8, 8 + s[5]) =~= bytes);
    vstd::utf8::encode_utf8_valid_utf8(e.name);
    vstd::utf8::encode_utf8_decode_utf8(e.name);
}

} // verus!
