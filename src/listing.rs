use vstd::prelude::*;
use chrono::TimeZone;

use crate::entry::{entry_type_char, type_char_of, EntryHeader, EntryKind};
use crate::mode::{decode_mod, mode_string};
use crate::naming::{decimal, pad_left, push_decimal, push_padded};

verus! {

/// The text that `String::from_utf8_lossy` makes of some bytes.
pub uninterp spec fn lossy_text(b: Seq<u8>) -> Seq<char>;

/// Relies on `String::from_utf8_lossy`: the text depends on the bytes alone.
#[verifier::external_body]
fn lossy(b: &[u8]) -> (r: String)
    ensures
        r@ == lossy_text(b@),
{
    String::from_utf8_lossy(b).into_owned()
}

/// Relies on chrono's `Local::timestamp_opt` and `DateTime::format`: the
/// local time of a moment, written `YYYY-MM-DD hh:mm:ss`, or none where
/// the moment is out of chrono's range. What comes out depends on the
/// machine's time zone.
#[verifier::external_body]
fn local_timestamp(secs: i64) -> (r: Option<String>) {
    match chrono::Local.timestamp_opt(secs, 0).single() {
        Some(t) => Some(t.format("%Y-%m-%d %H:%M:%S").to_string()),
        None => None,
    }
}

/// What a listing shows in the size column: the device numbers for a
/// device, the size otherwise.
pub open spec fn size_text(h: EntryHeader) -> Seq<char> {
    match h.kind {
        EntryKind::Block | EntryKind::Char => decimal(h.device_major as nat) + seq![':'] + decimal(
            h.device_minor as nat,
        ),
        _ => decimal(h.size as nat),
    }
}

/// The link target text: the lossy text of the target, empty where none.
pub open spec fn link_text(h: EntryHeader) -> Seq<char> {
    match h.link {
        Some(l) => lossy_text(l@),
        None => Seq::empty(),
    }
}

/// What ends the line of a link: where it points to.
pub open spec fn link_suffix(h: EntryHeader) -> Seq<char> {
    match h.kind {
        EntryKind::Link => seq![' ', 'l', 'i', 'n', 'k', ' ', 't', 'o', ' '] + link_text(h),
        EntryKind::Symlink => seq![' ', '-', '>', ' '] + link_text(h),
        _ => Seq::empty(),
    }
}

/// The listing line of an entry written into a volume: volume name, kind
/// and permissions, owner, group, size right-aligned on twelve columns,
/// time, path, and for a link its target.
pub open spec fn listing_text(volume_name: Seq<char>, h: EntryHeader, timestamp: Seq<char>) -> Seq<char> {
    volume_name + seq![' ', type_char_of(h.kind, h.path@)] + mode_string(h.mode) + seq![' '] + lossy_text(
        h.user@,
    ) + seq![' '] + lossy_text(h.group@) + seq![' '] + pad_left(size_text(h), ' ', 12) + seq![' ']
        + timestamp + seq![' '] + lossy_text(h.path@) + link_suffix(h)
}

fn push_space(s: &mut String)
    ensures
        final(s)@ == old(s)@ + seq![' '],
{
    proof { reveal_strlit(" "); }
    s.append(" ");
}

fn push_type_char(s: &mut String, c: char)
    requires
        c == 'd' || c == '-' || c == 'h' || c == 'l' || c == 'c' || c == 'b' || c == 'p' || c == 'L' || c == '?',
    ensures
        final(s)@ == old(s)@ + seq![c],
{
    let t = match c {
        'd' => "d",
        '-' => "-",
        'h' => "h",
        'l' => "l",
        'c' => "c",
        'b' => "b",
        'p' => "p",
        'L' => "L",
        _ => "?",
    };
    proof {
        reveal_strlit("d");
        reveal_strlit("-");
        reveal_strlit("h");
        reveal_strlit("l");
        reveal_strlit("c");
        reveal_strlit("b");
        reveal_strlit("p");
        reveal_strlit("L");
        reveal_strlit("?");
    }
    s.append(t);
}

fn size_column(h: &EntryHeader) -> (r: String)
    ensures
        r@ == size_text(*h),
{
    let mut r = String::new();
    match h.kind {
        EntryKind::Block | EntryKind::Char => {
            push_decimal(&mut r, h.device_major as u64);
            proof { reveal_strlit(":"); }
            r.append(":");
            push_decimal(&mut r, h.device_minor as u64);
        },
        _ => {
            push_decimal(&mut r, h.size);
        },
    }
    r
}

/// The listing line of an entry, with the time already written out.
pub fn listing_line(volume_name: &str, header: &EntryHeader, timestamp: &str) -> (r: String)
    ensures
        r@ == listing_text(volume_name@, *header, timestamp@),
{
    let mut r = String::from_str(volume_name);
    push_space(&mut r);
    push_type_char(&mut r, entry_type_char(header));
    let mode = decode_mod(header.mode);
    r.append(mode.as_str());
    push_space(&mut r);
    let user = lossy(header.user.as_slice());
    r.append(user.as_str());
    push_space(&mut r);
    let group = lossy(header.group.as_slice());
    r.append(group.as_str());
    push_space(&mut r);
    let size = size_column(header);
    proof { reveal_strlit(" "); }
    push_padded(&mut r, size.as_str(), " ", 12);
    push_space(&mut r);
    r.append(timestamp);
    push_space(&mut r);
    let path = lossy(header.path.as_slice());
    r.append(path.as_str());
    let link = match &header.link {
        Some(l) => lossy(l.as_slice()),
        None => String::new(),
    };
    assert(link@ == link_text(*header));
    match header.kind {
        EntryKind::Link => {
            proof { reveal_strlit(" link to "); }
            r.append(" link to ");
            r.append(link.as_str());
        },
        EntryKind::Symlink => {
            proof { reveal_strlit(" -> "); }
            r.append(" -> ");
            r.append(link.as_str());
        },
        _ => {},
    }
    assert(r@ =~= listing_text(volume_name@, *header, timestamp@));
    r
}

/// The listing line of an entry written into the named volume, with the
/// modification time in the machine's local time; a time out of the
/// calendar's range is shown as its count of seconds.
pub fn print_header(volume_name: &str, header: &EntryHeader) -> (r: String)
    ensures
        exists|t: Seq<char>| r@ == listing_text(volume_name@, *header, t),
{
    let local = if header.mtime <= i64::MAX as u64 {
        local_timestamp(header.mtime as i64)
    } else {
        None
    };
    let timestamp = match local {
        Some(t) => t,
        None => {
            let mut t = String::new();
            push_decimal(&mut t, header.mtime);
            t
        },
    };
    listing_line(volume_name, header, timestamp.as_str())
}

} // verus!
