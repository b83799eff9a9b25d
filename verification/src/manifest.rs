//! The pieces cut from the recording and the manifest that lists them: the
//! playlist from which the engine joins the pieces in the end.

use vstd::prelude::*;
use crate::digits::{hex_digits, hex_len, hex_value, push_hex, push_zeros, zero_padded};
use crate::digits::{lemma_hex_value_of_digits, lemma_hex_value_of_padded};

verus! {

/// A piece's number is written with at least this many digits.
pub const PIECE_DIGITS: usize = 8;

/// The file name of the piece with the number `index`: the number in base
/// sixteen, at least eight digits wide, between `piece-` and `.mkv`.
pub open spec fn piece_name_chars(index: nat) -> Seq<char> {
    "piece-"@ + zero_padded(hex_digits(index), PIECE_DIGITS as nat) + ".mkv"@
}

/// The first line of every manifest, with its line end.
pub open spec fn header_chars() -> Seq<char> {
    "ffconcat version 1.0\n"@
}

/// The line, with its line end, that lists the piece at `path`. The path is
/// written as it stands.
pub open spec fn entry_chars(path: Seq<char>) -> Seq<char> {
    "file "@ + path + "\n"@
}

/// The manifest that lists the pieces at `paths`, in their order.
pub open spec fn manifest_chars(paths: Seq<Seq<char>>) -> Seq<char>
    decreases paths.len(),
{
    if paths.len() == 0 {
        header_chars()
    } else {
        manifest_chars(paths.drop_last()) + entry_chars(paths.last())
    }
}

/// The text of each of `paths`.
pub open spec fn path_texts(paths: Seq<String>) -> Seq<Seq<char>> {
    Seq::new(paths.len(), |i: int| paths[i]@)
}

/// The file name of the piece with the number `index`.
pub fn piece_name(index: u64) -> (name: String)
    ensures
        name@ == piece_name_chars(index as nat),
{
    let mut name = String::from_str("piece-");
    let width = hex_len(index);
    if width < PIECE_DIGITS {
        push_zeros(&mut name, PIECE_DIGITS - width);
    }
    push_hex(&mut name, index);
    name.append(".mkv");
    proof {
        let digits = hex_digits(index as nat);
        assert(name@ =~= "piece-"@ + zero_padded(digits, PIECE_DIGITS as nat) + ".mkv"@);
    }
    name
}

/// The first line of every manifest, with its line end.
pub fn header_line() -> (line: String)
    ensures
        line@ == header_chars(),
{
    String::from_str("ffconcat version 1.0\n")
}

/// The line, with its line end, that lists the piece at `path`.
pub fn entry_line(path: &str) -> (line: String)
    ensures
        line@ == entry_chars(path@),
{
    let mut line = String::from_str("file ");
    line.append(path);
    line.append("\n");
    line
}

/// The manifest that lists the pieces at `paths`, in their order.
pub fn manifest_text(paths: &Vec<String>) -> (text: String)
    ensures
        text@ == manifest_chars(path_texts(paths@)),
{
    let ghost all = path_texts(paths@);
    let mut text = header_line();
    let mut i: usize = 0;
    assert(all.take(0) =~= Seq::<Seq<char>>::empty());
    while i < paths.len()
        invariant
            i <= paths.len(),
            all == path_texts(paths@),
            text@ == manifest_chars(all.take(i as int)),
        decreases paths.len() - i,
    {
        text.append("file ");
        text.append(paths[i].as_str());
        text.append("\n");
        proof {
            let next = all.take(i + 1);
            assert(next.drop_last() =~= all.take(i as int));
            assert(next.last() == paths@[i as int]@);
            assert(manifest_chars(all.take(i as int)) + "file "@ + paths@[i as int]@ + "\n"@
                =~= manifest_chars(all.take(i as int)) + entry_chars(paths@[i as int]@));
        }
        i += 1;
    }
    assert(all.take(i as int) =~= all);
    text
}

/// Pieces with different numbers have different file names.
pub proof fn law_piece_names_differ(a: nat, b: nat)
    requires
        a != b,
    ensures
        piece_name_chars(a) != piece_name_chars(b),
{
    if piece_name_chars(a) == piece_name_chars(b) {
        lemma_piece_number(a);
        lemma_piece_number(b);
    }
}

/// The number of a piece can be read back from its file name.
proof fn lemma_piece_number(index: nat)
    ensures
        ({
            let name = piece_name_chars(index);
            hex_value(name.subrange(6, name.len() - 4)) == index
        }),
{
    reveal_strlit("piece-");
    reveal_strlit(".mkv");
    let digits = zero_padded(hex_digits(index), PIECE_DIGITS as nat);
    let name = piece_name_chars(index);
    assert(name.subrange(6, name.len() - 4) =~= digits);
    lemma_hex_value_of_padded(hex_digits(index), PIECE_DIGITS as nat);
    lemma_hex_value_of_digits(index);
}

/// A manifest lists one line for every piece after its header: with no
/// piece it is the header alone, and every further piece adds its line at
/// the end.
pub proof fn law_manifest_grows_by_entries(paths: Seq<Seq<char>>, path: Seq<char>)
    ensures
        manifest_chars(Seq::empty()) == header_chars(),
        manifest_chars(paths.push(path)) == manifest_chars(paths) + entry_chars(path),
{
    assert(paths.push(path).drop_last() =~= paths);
}

} // verus!
