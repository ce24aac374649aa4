//! The lines that a command-line shell prints.

use vstd::prelude::*;
use crate::fs::{Entry, FsckReport, Stat};
use crate::inode::FileKind;
use crate::model::tree::{ItemView, StatView};
use crate::path::texts;
use crate::text::{decimal, decimal_text, joined};

verus! {

/// `s`, filled up with spaces on the left to `width` characters.
pub open spec fn padded(s: Seq<char>, width: int) -> Seq<char> {
    if s.len() < width {
        Seq::new((width - s.len()) as nat, |i: int| ' ') + s
    } else {
        s
    }
}

/// The line that shows a listing item: `d` for a directory or `-` for a file,
/// the inode, and the name.
pub open spec fn item_text(item: ItemView) -> Seq<char> {
    let tag = match item.kind {
        FileKind::Directory => "d "@,
        FileKind::File => "- "@,
    };
    tag + padded(decimal(item.inode as nat), 4) + " "@ + item.name
}

/// The name of a kind.
pub open spec fn kind_text(kind: FileKind) -> Seq<char> {
    match kind {
        FileKind::Directory => "Directory"@,
        FileKind::File => "File"@,
    }
}

/// The line that shows the metadata of an inode.
pub open spec fn stat_text(st: StatView) -> Seq<char> {
    "inode="@ + decimal(st.inode as nat) + " kind="@ + kind_text(st.kind) + " size="@ + decimal(
        st.size as nat,
    ) + " blocks="@ + decimal(st.blocks as nat) + " links="@ + decimal(st.link_count as nat)
}

/// The line of a listing item, column by column: a letter for the kind, a space,
/// the inode on the right of at least four columns, a space, and the name.
pub proof fn law_item_line(item: ItemView)
    ensures
        ({
            let line = item_text(item);
            let digits = decimal(item.inode as nat);
            let end: int = if digits.len() < 4 {
                6
            } else {
                2int + digits.len()
            };
            &&& line.len() == end + 1 + item.name.len()
            &&& line[0] == if item.kind == FileKind::Directory {
                'd'
            } else {
                '-'
            }
            &&& line[1] == ' '
            &&& forall|i: int| 2 <= i < end - digits.len() ==> #[trigger] line[i] == ' '
            &&& line.subrange(end - digits.len(), end) == digits
            &&& line[end] == ' '
            &&& line.skip(end + 1) == item.name
        }),
{
    let line = item_text(item);
    let digits = decimal(item.inode as nat);
    let end: int = if digits.len() < 4 {
        6
    } else {
        2int + digits.len()
    };
    reveal_strlit("d ");
    reveal_strlit("- ");
    reveal_strlit(" ");
    assert(padded(digits, 4).len() == end - 2);
    assert(line.subrange(end - digits.len(), end) =~= digits);
    assert(line.skip(end + 1) =~= item.name);
}

/// The line of metadata shows the inode, the kind, the size, the blocks and the
/// links, in this order, the numbers in decimal.
pub proof fn law_stat_line(st: StatView)
    ensures
        stat_text(st) == "inode="@ + decimal(st.inode as nat) + (if st.kind
            == FileKind::Directory {
            " kind=Directory size="@
        } else {
            " kind=File size="@
        }) + decimal(st.size as nat) + " blocks="@ + decimal(st.blocks as nat) + " links="@
            + decimal(st.link_count as nat),
{
    reveal_strlit(" kind=");
    reveal_strlit(" size=");
    reveal_strlit("File");
    reveal_strlit("Directory");
    reveal_strlit(" kind=Directory size=");
    reveal_strlit(" kind=File size=");
    assert(" kind="@ + "Directory"@ + " size="@ =~= " kind=Directory size="@);
    assert(" kind="@ + "File"@ + " size="@ =~= " kind=File size="@);
    let head = "inode="@ + decimal(st.inode as nat);
    assert(head + " kind="@ + kind_text(st.kind) + " size="@ =~= head + (" kind="@ + kind_text(
        st.kind,
    ) + " size="@));
}

/// How many digits the numeral of a number below ten thousand has.
proof fn lemma_digits(n: nat)
    ensures
        n < 10 ==> decimal(n).len() == 1,
        10 <= n < 100 ==> decimal(n).len() == 2,
        100 <= n < 1000 ==> decimal(n).len() == 3,
        1000 <= n ==> decimal(n).len() >= 4,
    decreases n,
{
    if n >= 10 {
        lemma_digits(n / 10);
    }
}

/// Renders `n` in decimal, in at least four columns.
fn column(n: u64) -> (text: String)
    ensures
        text@ == padded(decimal(n as nat), 4),
{
    let spaces: &str = if n < 10 {
        "   "
    } else if n < 100 {
        "  "
    } else if n < 1000 {
        " "
    } else {
        ""
    };
    let text: String = joined(spaces, decimal_text(n).as_str());
    proof {
        lemma_digits(n as nat);
        reveal_strlit("   ");
        reveal_strlit("  ");
        reveal_strlit(" ");
        reveal_strlit("");
        assert(text@ =~= padded(decimal(n as nat), 4));
    }
    text
}

impl Entry {
    /// Returns the line that shows this item in a listing.
    pub fn line(&self) -> (text: String)
        ensures
            text@ == item_text(self@),
    {
        let tag: &str = match self.kind {
            FileKind::Directory => "d ",
            FileKind::File => "- ",
        };
        let start: String = joined(joined(tag, column(self.inode as u64).as_str()).as_str(), " ");
        joined(start.as_str(), self.name.as_str())
    }
}

/// Returns `head`, `label` and the number `n` behind each other.
fn with_field(head: String, label: &str, n: u64) -> (text: String)
    ensures
        text@ == head@ + label@ + decimal(n as nat),
{
    joined(joined(head.as_str(), label).as_str(), decimal_text(n).as_str())
}

impl Stat {
    /// Returns the line that shows this metadata.
    pub fn line(&self) -> (text: String)
        ensures
            text@ == stat_text(self@),
    {
        let kind: &str = match self.kind {
            FileKind::Directory => "Directory",
            FileKind::File => "File",
        };
        let inode: String = joined("inode=", decimal_text(self.inode as u64).as_str());
        let named: String = joined(joined(inode.as_str(), " kind=").as_str(), kind);
        let sized: String = with_field(named, " size=", self.size);
        let counted: String = with_field(sized, " blocks=", self.blocks as u64);
        with_field(counted, " links=", self.link_count as u64)
    }
}

impl FsckReport {
    /// Returns the lines that show this report: the issues, or `clean`.
    pub fn into_lines(self) -> (lines: Vec<String>)
        ensures
            texts(lines@) == if self.issues@.len() == 0 {
                seq!["clean"@]
            } else {
                texts(self.issues@)
            },
    {
        if self.is_clean() {
            let mut lines: Vec<String> = Vec::new();
            lines.push("clean".to_string());
            assert(texts(lines@) =~= seq!["clean"@]);
            lines
        } else {
            self.issues
        }
    }
}

} // verus!
