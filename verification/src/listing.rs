//! The table that a listing of an archive shows.

use crate::archive::{
    descriptor_encrypted, entry_views, method_text, AlzArchive, AlzFileEntry, EntryView,
    ATTR_ARCHIVE, ATTR_DIRECTORY, ATTR_HIDDEN, ATTR_READONLY,
};
use crate::dostime::{dos_datetime_text, dos_datetime_to_string};
use crate::text::{decimal_digits, push_decimal};
use vstd::prelude::*;
use vstd::string::{StrSliceExecFns, StringExecFns};

verus! {

/// `n` spaces.
pub open spec fn spaces(n: int) -> Seq<char> {
    Seq::new(n as nat, |i: int| ' ')
}

/// A text moved to the right end of a field of `width` characters. A text
/// that is longer than the field is left as it is.
pub open spec fn right_aligned(text: Seq<char>, width: int) -> Seq<char> {
    if text.len() >= width {
        text
    } else {
        spaces(width - text.len()) + text
    }
}

/// The four attribute flags of a listing line: archive, directory,
/// read-only, hidden; an underscore for a flag that is not set.
pub open spec fn attribute_text(attribute: u8) -> Seq<char> {
    seq![
        if attribute & ATTR_ARCHIVE != 0 {
            'A'
        } else {
            '_'
        },
        if attribute & ATTR_DIRECTORY != 0 {
            'D'
        } else {
            '_'
        },
        if attribute & ATTR_READONLY != 0 {
            'R'
        } else {
            '_'
        },
        if attribute & ATTR_HIDDEN != 0 {
            'H'
        } else {
            '_'
        },
    ]
}

/// The line of one entry: flags, the two sizes, the method, the timestamp
/// and the name, which is followed by a star where the entry is encrypted.
pub open spec fn entry_line(entry: EntryView) -> Seq<char> {
    attribute_text(entry.file_attribute) + seq![' '] + right_aligned(
        decimal_digits(entry.uncompressed_size as nat),
        12,
    ) + seq![' '] + right_aligned(decimal_digits(entry.compressed_size as nat), 12) + seq![' ']
        + method_text(entry.compression_method) + seq![' '] + dos_datetime_text(
        entry.file_time_date,
    ) + seq![' ', ' '] + entry.file_name + if descriptor_encrypted(entry.file_descriptor) {
        seq!['*']
    } else {
        Seq::<char>::empty()
    } + seq!['\n']
}

/// The lines of all entries, in order.
pub open spec fn entry_lines(entries: Seq<EntryView>) -> Seq<char>
    decreases entries.len(),
{
    if entries.len() == 0 {
        Seq::empty()
    } else {
        entry_lines(entries.drop_last()) + entry_line(entries.last())
    }
}

/// The sum of the uncompressed sizes, held at the largest `u64` where it
/// would pass it.
pub open spec fn total_uncompressed(entries: Seq<EntryView>) -> u64
    decreases entries.len(),
{
    if entries.len() == 0 {
        0
    } else {
        let sum = total_uncompressed(entries.drop_last()) + entries.last().uncompressed_size;
        if sum > u64::MAX {
            u64::MAX
        } else {
            sum as u64
        }
    }
}

/// The sum of the compressed sizes, held at the largest `u64` where it would
/// pass it.
pub open spec fn total_compressed(entries: Seq<EntryView>) -> u64
    decreases entries.len(),
{
    if entries.len() == 0 {
        0
    } else {
        let sum = total_compressed(entries.drop_last()) + entries.last().compressed_size;
        if sum > u64::MAX {
            u64::MAX
        } else {
            sum as u64
        }
    }
}

/// The column titles and the rule below them.
pub open spec fn listing_head(source: Seq<char>) -> Seq<char> {
    "\nListing archive: "@ + source + "\n\n"@
        + "Attr  Uncomp Size    Comp Size Method  Date & Time & File Name\n"@
        + "---- ------------ ------------ ------- ------------------------------------------------\n"@
}

/// The rule above the totals and the line of totals.
pub open spec fn listing_foot(entries: Seq<EntryView>) -> Seq<char> {
    "---- ------------ ------------ ------- ------------------------------------------------\n"@
        + "     "@ + right_aligned(decimal_digits(total_uncompressed(entries) as nat), 12)
        + seq![' '] + right_aligned(decimal_digits(total_compressed(entries) as nat), 12)
        + "         Total "@ + decimal_digits(entries.len()) + " file"@ + if entries.len() <= 1 {
        Seq::<char>::empty()
    } else {
        seq!['s']
    } + seq!['\n']
}

/// The whole listing of an archive that was read from `source`.
pub open spec fn listing_text(entries: Seq<EntryView>, source: Seq<char>) -> Seq<char> {
    listing_head(source) + entry_lines(entries) + listing_foot(entries)
}

/// Appends `n` in decimal at the right end of a field of `width`
/// characters.
fn push_number_field(out: &mut String, n: u64, width: usize)
    ensures
        final(out)@ == old(out)@ + right_aligned(decimal_digits(n as nat), width as int),
{
    let mut digits = String::new();
    push_decimal(&mut digits, n);
    proof {
        assert(digits@ =~= decimal_digits(n as nat));
        reveal_strlit(" ");
    }
    let len = digits.as_str().unicode_len();
    let mut k: usize = len;
    proof {
        assert(old(out)@ + spaces(0) =~= old(out)@);
    }
    while k < width
        invariant
            len <= k,
            len < width ==> k <= width,
            len >= width ==> k == len,
            out@ == old(out)@ + spaces(k - len),
        decreases width - k,
    {
        out.append(" ");
        proof {
            reveal_strlit(" ");
            assert(" "@ =~= seq![' ']);
            assert(out@ =~= old(out)@ + spaces(k + 1 - len));
        }
        k += 1;
    }
    out.append(digits.as_str());
    proof {
        if len >= width {
            assert(spaces(0) =~= Seq::<char>::empty());
            assert(out@ =~= old(out)@ + digits@);
        } else {
            assert(out@ =~= old(out)@ + (spaces(width - len) + digits@));
        }
    }
}

/// The attribute flags of a listing line.
fn attribute_flags(attribute: u8) -> (s: String)
    ensures
        s@ == attribute_text(attribute),
{
    proof {
        reveal_strlit("A");
        reveal_strlit("D");
        reveal_strlit("R");
        reveal_strlit("H");
        reveal_strlit("_");
    }
    let mut s = String::new();
    s.append(
        if attribute & ATTR_ARCHIVE != 0 {
            "A"
        } else {
            "_"
        },
    );
    s.append(
        if attribute & ATTR_DIRECTORY != 0 {
            "D"
        } else {
            "_"
        },
    );
    s.append(
        if attribute & ATTR_READONLY != 0 {
            "R"
        } else {
            "_"
        },
    );
    s.append(
        if attribute & ATTR_HIDDEN != 0 {
            "H"
        } else {
            "_"
        },
    );
    proof {
        assert(s@ =~= attribute_text(attribute));
    }
    s
}

/// Appends the listing line of one entry.
fn push_entry_line(out: &mut String, entry: &AlzFileEntry)
    ensures
        final(out)@ == old(out)@ + entry_line(entry@),
{
    proof {
        reveal_strlit(" ");
        reveal_strlit("  ");
        reveal_strlit("*");
        reveal_strlit("\n");
    }
    let flags = attribute_flags(entry.file_attribute);
    let method = entry.compression_method.to_string();
    let datetime = dos_datetime_to_string(entry.file_time_date);
    out.append(flags.as_str());
    out.append(" ");
    push_number_field(out, entry.uncompressed_size, 12);
    out.append(" ");
    push_number_field(out, entry.compressed_size, 12);
    out.append(" ");
    out.append(method.as_str());
    out.append(" ");
    out.append(datetime.as_str());
    out.append("  ");
    out.append(entry.file_name.as_str());
    if entry.is_encrypted() {
        out.append("*");
    }
    out.append("\n");
    proof {
        assert(" "@ =~= seq![' ']);
        assert("  "@ =~= seq![' ', ' ']);
        assert("*"@ =~= seq!['*']);
        assert("\n"@ =~= seq!['\n']);
        assert(out@ =~= old(out)@ + entry_line(entry@));
    }
}

/// Renders the listing of an archive: a head with the source's name and the
/// column titles, one line for every entry, and a foot with the totals.
pub fn list_archive(archive: &AlzArchive, source: &str) -> (s: String)
    ensures
        s@ == listing_text(entry_views(archive.entries@), source@),
{
    let ghost entries = entry_views(archive.entries@);
    let mut s = String::new();
    s.append("\nListing archive: ");
    s.append(source);
    s.append("\n\n");
    s.append("Attr  Uncomp Size    Comp Size Method  Date & Time & File Name\n");
    s.append(
        "---- ------------ ------------ ------- ------------------------------------------------\n",
    );
    proof {
        assert(s@ =~= listing_head(source@));
        assert(entries.subrange(0, 0) =~= Seq::<EntryView>::empty());
        assert(s@ =~= listing_head(source@) + entry_lines(entries.subrange(0, 0)));
    }
    let count = archive.entries.len();
    let mut total_uncompressed_size: u64 = 0;
    let mut total_compressed_size: u64 = 0;
    let mut i: usize = 0;
    while i < count
        invariant
            i <= count,
            count == archive.entries@.len(),
            entries == entry_views(archive.entries@),
            s@ == listing_head(source@) + entry_lines(entries.subrange(0, i as int)),
            total_uncompressed_size == total_uncompressed(entries.subrange(0, i as int)),
            total_compressed_size == total_compressed(entries.subrange(0, i as int)),
        decreases count - i,
    {
        let entry = &archive.entries[i];
        proof {
            assert(entries.subrange(0, i + 1).drop_last() =~= entries.subrange(0, i as int));
            assert(entries.subrange(0, i + 1).last() == entry@);
        }
        push_entry_line(&mut s, entry);
        total_uncompressed_size = total_uncompressed_size.saturating_add(entry.uncompressed_size);
        total_compressed_size = total_compressed_size.saturating_add(entry.compressed_size);
        proof {
            assert(s@ =~= listing_head(source@) + entry_lines(entries.subrange(0, i + 1)));
        }
        i += 1;
    }
    proof {
        assert(entries.subrange(0, count as int) =~= entries);
        reveal_strlit("s");
        reveal_strlit(" ");
        reveal_strlit("\n");
    }
    s.append(
        "---- ------------ ------------ ------- ------------------------------------------------\n",
    );
    s.append("     ");
    push_number_field(&mut s, total_uncompressed_size, 12);
    s.append(" ");
    push_number_field(&mut s, total_compressed_size, 12);
    s.append("         Total ");
    push_decimal(&mut s, count as u64);
    s.append(" file");
    if count > 1 {
        s.append("s");
    }
    s.append("\n");
    proof {
        assert(" "@ =~= seq![' ']);
        assert("s"@ =~= seq!['s']);
        assert("\n"@ =~= seq!['\n']);
        assert(s@ =~= listing_text(entries, source@));
    }
    s
}

} // verus!
