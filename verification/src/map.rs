//! Grid maps in the MovingAI `.map` text format.

use vstd::prelude::*;
use vstd::slice::slice_subrange;
use vstd::string::*;
use crate::text::{
    chars_of, decimal, eq_ignore_ascii_case, has_prefix, is_digit, lemma_decimal_digits,
    lemma_decimal_reads_back, lemma_lines_after_line, lemma_trim_plain, lines, parse_unsigned,
    push_decimal,
    same_ignoring_ascii_case, span_text, spans_text, spans_within, split_lines, starts_with,
    string_of, trim, trim_bounds, unsigned_value,
};

verus! {

/// A single cell in a grid map.
#[derive(Debug, Clone, Copy, PartialEq, Eq, Structural)]
pub enum Tile {
    /// Agent can traverse this cell.
    Passable,
    /// Obstacle; agent cannot enter.
    Blocked,
}

/// Errors from parsing a MovingAI map file.
#[derive(Debug)]
pub enum MapError {
    MissingHeader(&'static str),
    InvalidHeader { field: &'static str, value: String },
    DimensionMismatch { expected: u32, got: u32 },
    RowWidthMismatch { row: u32, expected: u32, got: u32 },
}

/// A parsed grid map from the MovingAI format.
#[derive(Debug)]
pub struct GridMap {
    width: u32,
    height: u32,
    /// Row-major; index = y * width + x
    tiles: Vec<Tile>,
}

/// What a `GridMap` holds, as mathematical values.
pub struct MapModel {
    pub width: u32,
    pub height: u32,
    pub tiles: Seq<Tile>,
}

/// What a `MapError` says, as mathematical values.
pub enum MapFault {
    MissingHeader(Seq<char>),
    InvalidHeader { field: Seq<char>, value: Seq<char> },
    DimensionMismatch { expected: u32, got: u32 },
    RowWidthMismatch { row: u32, expected: u32, got: u32 },
}

impl View for MapError {
    type V = MapFault;

    open spec fn view(&self) -> MapFault {
        match self {
            MapError::MissingHeader(field) => MapFault::MissingHeader(field@),
            MapError::InvalidHeader { field, value } => MapFault::InvalidHeader {
                field: field@,
                value: value@,
            },
            MapError::DimensionMismatch { expected, got } => MapFault::DimensionMismatch {
                expected: *expected,
                got: *got,
            },
            MapError::RowWidthMismatch { row, expected, got } => MapFault::RowWidthMismatch {
                row: *row,
                expected: *expected,
                got: *got,
            },
        }
    }
}

// ---------------------------------------------------------------------------
// The format
// ---------------------------------------------------------------------------

/// The tile a map character stands for: '.', 'G' and 'S' are passable, every
/// other character is blocked.
pub open spec fn tile_of(ch: char) -> Tile {
    if ch == '.' || ch == 'G' || ch == 'S' {
        Tile::Passable
    } else {
        Tile::Blocked
    }
}

/// The tiles of one row of map characters.
pub open spec fn row_tiles(row: Seq<char>) -> Seq<Tile> {
    Seq::new(row.len(), |x: int| tile_of(row[x]))
}

/// What the header lines read so far have given.
pub struct Header {
    pub has_type: bool,
    pub height: Option<u32>,
    pub width: Option<u32>,
}

/// The line that ends the header: the word `map`, in any case, with white
/// space around it at most.
pub open spec fn is_map_line(line: Seq<char>) -> bool {
    same_ignoring_ascii_case(trim(line), "map"@)
}

/// What is left of a trimmed line behind the key it begins with.
pub open spec fn after_key(line: Seq<char>, key: Seq<char>) -> Seq<char> {
    trim(line).subrange(key.len() as int, trim(line).len() as int)
}

/// The header after one more line. A `type` line sets the type, a `height`
/// or `width` line sets that dimension, and a later line of a kind replaces
/// an earlier one. A dimension that is no decimal `u32` is an error. Every
/// other line is skipped.
pub open spec fn with_header_line(h: Header, line: Seq<char>) -> Result<Header, MapFault> {
    if has_prefix(trim(line), "type "@) {
        Ok(Header { has_type: true, height: h.height, width: h.width })
    } else if has_prefix(trim(line), "height "@) {
        let rest = after_key(line, "height "@);
        match unsigned_value(trim(rest), u32::MAX as nat) {
            Some(v) => Ok(Header { has_type: h.has_type, height: Some(v as u32), width: h.width }),
            None => Err(MapFault::InvalidHeader { field: "height"@, value: rest }),
        }
    } else if has_prefix(trim(line), "width "@) {
        let rest = after_key(line, "width "@);
        match unsigned_value(trim(rest), u32::MAX as nat) {
            Some(v) => Ok(Header { has_type: h.has_type, height: h.height, width: Some(v as u32) }),
            None => Err(MapFault::InvalidHeader { field: "width"@, value: rest }),
        }
    } else {
        Ok(h)
    }
}

/// Reads header lines from line `from` on, up to the `map` line or the end
/// of the text. Gives the header and the number of the line behind the
/// `map` line, or the first error.
pub open spec fn read_header(ls: Seq<Seq<char>>, from: int, h: Header) -> Result<(Header, int), MapFault>
    decreases ls.len() - from,
{
    if from < 0 || from >= ls.len() {
        Ok((h, ls.len() as int))
    } else if is_map_line(ls[from]) {
        Ok((h, from + 1))
    } else {
        match with_header_line(h, ls[from]) {
            Err(e) => Err(e),
            Ok(next) => read_header(ls, from + 1, next),
        }
    }
}

/// The number of characters of a row as an error reports it.
pub open spec fn reported_len(row: Seq<char>) -> u32 {
    (row.len() % 0x1_0000_0000) as u32
}

/// Reads the rows `row`, `row + 1`, ... below `height` from the lines that
/// begin at line `from`, behind the tiles of the rows above. A row that has
/// not exactly `width` characters is an error, and so is a text that ends
/// before row `height`.
pub open spec fn read_rows(
    ls: Seq<Seq<char>>,
    from: int,
    row: int,
    width: u32,
    height: u32,
    tiles: Seq<Tile>,
) -> Result<Seq<Tile>, MapFault>
    decreases height - row,
{
    if row >= height || row < 0 {
        Ok(tiles)
    } else if from + row >= ls.len() || from < 0 {
        Err(MapFault::DimensionMismatch { expected: height, got: row as u32 })
    } else if ls[from + row].len() != width {
        Err(
            MapFault::RowWidthMismatch {
                row: row as u32,
                expected: width,
                got: reported_len(ls[from + row]),
            },
        )
    } else {
        read_rows(ls, from, row + 1, width, height, tiles + row_tiles(ls[from + row]))
    }
}

/// What a map text stands for.
///
/// Header lines come in any order before the `map` line and must give a
/// type, a height and a width. Behind the `map` line come `height` rows of
/// `width` characters each; lines behind the last row are ignored.
pub open spec fn parse_model(input: Seq<char>) -> Result<MapModel, MapFault> {
    let ls = lines(input);
    match read_header(ls, 0, Header { has_type: false, height: None, width: None }) {
        Err(e) => Err(e),
        Ok((h, from)) => if !h.has_type {
            Err(MapFault::MissingHeader("type"@))
        } else if h.height is None {
            Err(MapFault::MissingHeader("height"@))
        } else if h.width is None {
            Err(MapFault::MissingHeader("width"@))
        } else {
            let width = h.width->Some_0;
            let height = h.height->Some_0;
            match read_rows(ls, from, 0, width, height, Seq::empty()) {
                Err(e) => Err(e),
                Ok(tiles) => Ok(MapModel { width, height, tiles }),
            }
        },
    }
}

/// The byte a tile is written as: 1 for passable, 0 for blocked.
pub open spec fn byte_of(tile: Tile) -> u8 {
    match tile {
        Tile::Passable => 1,
        Tile::Blocked => 0,
    }
}

/// The tile a byte stands for: 0 is blocked, every other value passable.
pub open spec fn tile_of_byte(byte: u8) -> Tile {
    if byte != 0 {
        Tile::Passable
    } else {
        Tile::Blocked
    }
}

pub open spec fn bytes_of(tiles: Seq<Tile>) -> Seq<u8> {
    Seq::new(tiles.len(), |i: int| byte_of(tiles[i]))
}

pub open spec fn tiles_of(bytes: Seq<u8>) -> Seq<Tile> {
    Seq::new(bytes.len(), |i: int| tile_of_byte(bytes[i]))
}

impl MapModel {
    /// The tile at `(x, y)`; `None` outside the map.
    pub open spec fn tile_at(self, x: int, y: int) -> Option<Tile> {
        if 0 <= x < self.width && 0 <= y < self.height {
            Some(self.tiles[y * self.width + x])
        } else {
            None
        }
    }
}

impl View for GridMap {
    type V = MapModel;

    closed spec fn view(&self) -> MapModel {
        MapModel { width: self.width, height: self.height, tiles: self.tiles@ }
    }
}

pub open spec fn missing_text(field: Seq<char>) -> Seq<char> {
    "missing header field: "@ + field
}

pub open spec fn invalid_text(field: Seq<char>, value: Seq<char>) -> Seq<char> {
    "invalid header value for "@ + field + ": "@ + value
}

pub open spec fn dimension_text(expected: u32, got: u32) -> Seq<char> {
    "dimension mismatch: expected "@ + decimal(expected as nat) + " rows, got "@ + decimal(
        got as nat,
    )
}

pub open spec fn row_width_text(row: u32, expected: u32, got: u32) -> Seq<char> {
    "row "@ + decimal(row as nat) + " width mismatch: expected "@ + decimal(expected as nat)
        + ", got "@ + decimal(got as nat)
}

/// The sentence that describes a map error.
pub open spec fn fault_text(fault: MapFault) -> Seq<char> {
    match fault {
        MapFault::MissingHeader(field) => missing_text(field),
        MapFault::InvalidHeader { field, value } => invalid_text(field, value),
        MapFault::DimensionMismatch { expected, got } => dimension_text(expected, got),
        MapFault::RowWidthMismatch { row, expected, got } => row_width_text(row, expected, got),
    }
}

impl MapError {
    /// The sentence that describes this error.
    pub fn message(&self) -> (out: String)
        ensures
            out@ == fault_text(self@),
    {
        match self {
            MapError::MissingHeader(field) => {
                let mut out = String::from_str("missing header field: ");
                out.append(field);
                out
            },
            MapError::InvalidHeader { field, value } => {
                let mut out = String::from_str("invalid header value for ");
                out.append(field);
                out.append(": ");
                out.append(value.as_str());
                out
            },
            MapError::DimensionMismatch { expected, got } => {
                let mut out = String::from_str("dimension mismatch: expected ");
                push_decimal(&mut out, *expected as u64);
                out.append(" rows, got ");
                push_decimal(&mut out, *got as u64);
                out
            },
            MapError::RowWidthMismatch { row, expected, got } => {
                let mut out = String::from_str("row ");
                push_decimal(&mut out, *row as u64);
                out.append(" width mismatch: expected ");
                push_decimal(&mut out, *expected as u64);
                out.append(", got ");
                push_decimal(&mut out, *got as u64);
                out
            },
        }
    }
}

/// One header line's effect, computed.
fn header_line(
    line: &[char],
    has_type: bool,
    height: Option<u32>,
    width: Option<u32>,
    type_key: &[char],
    height_key: &[char],
    width_key: &[char],
) -> (r: Result<(bool, Option<u32>, Option<u32>), MapError>)
    requires
        type_key@ == "type "@,
        height_key@ == "height "@,
        width_key@ == "width "@,
    ensures
        match with_header_line(Header { has_type, height, width }, line@) {
            Ok(h) => r == Ok::<_, MapError>((h.has_type, h.height, h.width)),
            Err(f) => r matches Err(e) && e@ == f,
        },
{
    let (a, b) = trim_bounds(line);
    let trimmed = slice_subrange(line, a, b);
    if starts_with(trimmed, type_key) {
        Ok((true, height, width))
    } else if starts_with(trimmed, height_key) {
        let rest = slice_subrange(trimmed, height_key.len(), trimmed.len());
        let (c, d) = trim_bounds(rest);
        match parse_unsigned(slice_subrange(rest, c, d), u32::MAX as u64) {
            Some(v) => Ok((has_type, Some(v as u32), width)),
            None => Err(MapError::InvalidHeader { field: "height", value: string_of(rest) }),
        }
    } else if starts_with(trimmed, width_key) {
        let rest = slice_subrange(trimmed, width_key.len(), trimmed.len());
        let (c, d) = trim_bounds(rest);
        match parse_unsigned(slice_subrange(rest, c, d), u32::MAX as u64) {
            Some(v) => Ok((has_type, height, Some(v as u32))),
            None => Err(MapError::InvalidHeader { field: "width", value: string_of(rest) }),
        }
    } else {
        Ok((has_type, height, width))
    }
}

impl Clone for GridMap {
    fn clone(&self) -> (out: Self)
        ensures
            out@ == self@,
    {
        proof {
            use_type_invariant(self);
        }
        let mut tiles: Vec<Tile> = Vec::new();
        let mut i: usize = 0;
        while i < self.tiles.len()
            invariant
                i <= self.tiles@.len(),
                tiles@ == self.tiles@.take(i as int),
            decreases self.tiles@.len() - i,
        {
            tiles.push(self.tiles[i]);
            i += 1;
            assert(self.tiles@.take(i as int) =~= self.tiles@.take(i - 1).push(self.tiles@[i - 1]));
        }
        assert(self.tiles@.take(self.tiles@.len() as int) =~= self.tiles@);
        GridMap { width: self.width, height: self.height, tiles }
    }
}

impl GridMap {
    #[verifier::type_invariant]
    spec fn well_formed(self) -> bool {
        self.tiles@.len() == self.width * self.height
    }

    /// Parse a MovingAI `.map` file content.
    ///
    /// Expected format:
    /// ```text
    /// type octile
    /// height N
    /// width M
    /// map
    /// <N lines of M characters>
    /// ```
    pub fn parse(input: &str) -> (result: Result<GridMap, MapError>)
        ensures
            match parse_model(input@) {
                Ok(model) => result matches Ok(map) && map@ == model,
                Err(fault) => result matches Err(e) && e@ == fault,
            },
    {
        let chars = chars_of(input);
        let text = chars.as_slice();
        let spans = split_lines(text);
        let ghost ls = lines(input@);
        let map_word = chars_of("map");
        let type_key = chars_of("type ");
        let height_key = chars_of("height ");
        let width_key = chars_of("width ");
        let mut has_type = false;
        let mut height: Option<u32> = None;
        let mut width: Option<u32> = None;
        let mut from: usize = 0;
        let mut in_header = true;
        let ghost first = Header { has_type: false, height: None, width: None };
        while in_header && from < spans.len()
            invariant
                from <= spans@.len(),
                text@ == input@,
                ls == lines(input@),
                spans_within(text@, spans@),
                spans_text(text@, spans@) == ls,
                map_word@ == "map"@,
                type_key@ == "type "@,
                height_key@ == "height "@,
                width_key@ == "width "@,
                first == (Header { has_type: false, height: None, width: None }),
                in_header ==> read_header(ls, 0, first) == read_header(
                    ls,
                    from as int,
                    Header { has_type, height, width },
                ),
                !in_header ==> read_header(ls, 0, first) == Ok::<_, MapFault>(
                    (Header { has_type, height, width }, from as int),
                ),
            decreases
                    (if in_header {
                        spans@.len() - from + 1
                    } else {
                        0
                    }),
        {
            let span = spans[from];
            let line = slice_subrange(text, span.lo, span.hi);
            assert(line@ == ls[from as int]) by {
                assert(spans_text(text@, spans@)[from as int] == span_text(text@, spans@[from as int]));
            }
            let (a, b) = trim_bounds(line);
            if eq_ignore_ascii_case(slice_subrange(line, a, b), map_word.as_slice()) {
                in_header = false;
            } else {
                match header_line(
                    line,
                    has_type,
                    height,
                    width,
                    type_key.as_slice(),
                    height_key.as_slice(),
                    width_key.as_slice(),
                ) {
                    Ok(next) => {
                        has_type = next.0;
                        height = next.1;
                        width = next.2;
                    },
                    Err(e) => {
                        return Err(e);
                    },
                }
            }
            from += 1;
        }
        assert(read_header(ls, 0, first) == Ok::<_, MapFault>(
            (Header { has_type, height, width }, from as int),
        ));
        if !has_type {
            return Err(MapError::MissingHeader("type"));
        }
        let height = match height {
            Some(h) => h,
            None => {
                return Err(MapError::MissingHeader("height"));
            },
        };
        let width = match width {
            Some(w) => w,
            None => {
                return Err(MapError::MissingHeader("width"));
            },
        };
        let mut tiles: Vec<Tile> = Vec::new();
        let mut row: u32 = 0;
        while row < height
            invariant
                row <= height,
                from <= spans@.len(),
                text@ == input@,
                spans_within(text@, spans@),
                spans_text(text@, spans@) == ls,
                tiles@.len() == row * width,
                ls == lines(input@),
                read_header(ls, 0, first) == Ok::<_, MapFault>(
                    (Header { has_type: true, height: Some(height), width: Some(width) }, from as int),
                ),
                first == (Header { has_type: false, height: None, width: None }),
                read_rows(ls, from as int, 0, width, height, Seq::empty()) == read_rows(
                    ls,
                    from as int,
                    row as int,
                    width,
                    height,
                    tiles@,
                ),
            decreases height - row,
        {
            if row as u64 >= (spans.len() - from) as u64 {
                return Err(MapError::DimensionMismatch { expected: height, got: row });
            }
            let span = spans[from + row as usize];
            let line = slice_subrange(text, span.lo, span.hi);
            assert(line@ == ls[from + row]) by {
                assert(spans_text(text@, spans@)[from + row] == span_text(
                    text@,
                    spans@[from + row],
                ));
            }
            if line.len() as u64 != width as u64 {
                return Err(
                    MapError::RowWidthMismatch {
                        row,
                        expected: width,
                        got: (line.len() as u64 % 0x1_0000_0000) as u32,
                    },
                );
            }
            let ghost above = tiles@;
            let mut x: usize = 0;
            while x < line.len()
                invariant
                    x <= line@.len(),
                    tiles@ == above + row_tiles(line@).take(x as int),
                decreases line@.len() - x,
            {
                tiles.push(Self::char_to_tile(line[x]));
                x += 1;
                assert(row_tiles(line@).take(x as int) =~= row_tiles(line@).take(x - 1).push(
                    tile_of(line@[x - 1]),
                ));
            }
            assert(row_tiles(line@).take(line@.len() as int) =~= row_tiles(line@));
            assert((row + 1) * width == row * width + width) by (nonlinear_arith);
            row += 1;
        }
        assert(height * width == width * height) by (nonlinear_arith);
        Ok(GridMap { width, height, tiles })
    }

    pub fn char_to_tile(ch: char) -> (tile: Tile)
        ensures
            tile == tile_of(ch),
    {
        if ch == '.' || ch == 'G' || ch == 'S' {
            Tile::Passable
        } else {
            // Everything else is blocked (@ T O W etc.)
            Tile::Blocked
        }
    }

    /// Width of the map (x dimension).
    pub fn width(&self) -> (w: u32)
        ensures
            w == self@.width,
    {
        self.width
    }

    /// Height of the map (y dimension).
    pub fn height(&self) -> (h: u32)
        ensures
            h == self@.height,
    {
        self.height
    }

    /// Get tile at (x, y). Returns `None` if out of bounds.
    pub fn get(&self, x: u32, y: u32) -> (tile: Option<Tile>)
        ensures
            tile == self@.tile_at(x as int, y as int),
            self@.tiles.len() == self@.width * self@.height,
    {
        proof {
            use_type_invariant(self);
        }
        if x < self.width && y < self.height {
            assert(y * self.width + x < self.width * self.height) by (nonlinear_arith)
                requires
                    0 <= x < self.width,
                    0 <= y < self.height,
            ;
            assert(y * self.width <= 0xffff_ffff * 0xffff_ffff) by (nonlinear_arith)
                requires
                    0 <= y <= 0xffff_ffff,
                    0 <= self.width <= 0xffff_ffff,
            ;
            let idx: u64 = y as u64 * self.width as u64 + x as u64;
            let cells: usize = self.tiles.len();
            assert(idx < cells);
            Some(self.tiles[idx as usize])
        } else {
            None
        }
    }

    /// Check if cell (x, y) is passable (returns false for out-of-bounds).
    pub fn is_passable(&self, x: u32, y: u32) -> (open: bool)
        ensures
            open == (self@.tile_at(x as int, y as int) == Some(Tile::Passable)),
    {
        match self.get(x, y) {
            Some(Tile::Passable) => true,
            _ => false,
        }
    }

    /// Convert to a flat byte array (row-major). 1 = passable, 0 = blocked.
    pub fn to_bytes(&self) -> (bytes: Vec<u8>)
        ensures
            bytes@ == bytes_of(self@.tiles),
    {
        let mut bytes: Vec<u8> = Vec::new();
        let mut i: usize = 0;
        while i < self.tiles.len()
            invariant
                i <= self.tiles@.len(),
                bytes@.len() == i,
                forall|k: int| 0 <= k < i ==> #[trigger] bytes@[k] == byte_of(self.tiles@[k]),
            decreases self.tiles@.len() - i,
        {
            bytes.push(
                match self.tiles[i] {
                    Tile::Passable => 1,
                    Tile::Blocked => 0,
                },
            );
            i += 1;
        }
        assert(bytes@ =~= bytes_of(self@.tiles));
        bytes
    }

    /// Create from raw bytes (row-major, 0 = blocked, anything else
    /// passable). `None` unless there is exactly one byte per cell.
    pub fn from_bytes(width: u32, height: u32, data: &[u8]) -> (result: Option<GridMap>)
        ensures
            data@.len() == width * height ==> (result matches Some(map) && map@ == (MapModel {
                width,
                height,
                tiles: tiles_of(data@),
            })),
            data@.len() != width * height ==> result is None,
    {
        assert(width * height <= 0xffff_ffff * 0xffff_ffff) by (nonlinear_arith)
            requires
                0 <= width <= 0xffff_ffff,
                0 <= height <= 0xffff_ffff,
        ;
        if data.len() as u64 != width as u64 * height as u64 {
            return None;
        }
        let mut tiles: Vec<Tile> = Vec::new();
        let mut i: usize = 0;
        while i < data.len()
            invariant
                i <= data@.len(),
                tiles@.len() == i,
                forall|k: int| 0 <= k < i ==> #[trigger] tiles@[k] == tile_of_byte(data@[k]),
            decreases data@.len() - i,
        {
            tiles.push(
                if data[i] != 0 {
                    Tile::Passable
                } else {
                    Tile::Blocked
                },
            );
            i += 1;
        }
        assert(tiles@ =~= tiles_of(data@));
        Some(GridMap { width, height, tiles })
    }
}

// ---------------------------------------------------------------------------
// What conversion and parsing preserve
// ---------------------------------------------------------------------------

/// Bytes that are all 0 or 1 come back unchanged from tiles.
pub proof fn lemma_bytes_round_trip(bytes: Seq<u8>)
    requires
        forall|i: int| 0 <= i < bytes.len() ==> #[trigger] bytes[i] <= 1,
    ensures
        bytes_of(tiles_of(bytes)) == bytes,
{
    assert(bytes_of(tiles_of(bytes)) =~= bytes);
}

/// Tiles come back unchanged from bytes.
pub proof fn lemma_tiles_round_trip(tiles: Seq<Tile>)
    ensures
        tiles_of(bytes_of(tiles)) == tiles,
{
    assert(tiles_of(bytes_of(tiles)) =~= tiles);
}

proof fn lemma_read_rows(
    ls: Seq<Seq<char>>,
    from: int,
    row: int,
    width: u32,
    height: u32,
    tiles: Seq<Tile>,
)
    requires
        0 <= row <= height,
        0 <= from,
        tiles.len() == row * width,
        read_rows(ls, from, row, width, height, tiles) is Ok,
    ensures
        ({
            let all = read_rows(ls, from, row, width, height, tiles)->Ok_0;
            &&& all.len() == height * width
            &&& forall|k: int| 0 <= k < tiles.len() ==> all[k] == tiles[k]
            &&& forall|r: int, x: int|
                row <= r < height && 0 <= x < width ==> (#[trigger] ls[from + r]).len() == width
                    && #[trigger] all[r * width + x] == tile_of(ls[from + r][x])
        }),
    decreases height - row,
{
    if row < height {
        let line = ls[from + row];
        let longer = tiles + row_tiles(line);
        assert((row + 1) * width == row * width + width) by (nonlinear_arith);
        lemma_read_rows(ls, from, row + 1, width, height, longer);
        let all = read_rows(ls, from, row, width, height, tiles)->Ok_0;
        assert forall|k: int| 0 <= k < tiles.len() implies all[k] == tiles[k] by {
            assert(longer[k] == tiles[k]);
        }
        assert forall|r: int, x: int| row <= r < height && 0 <= x < width implies (#[trigger] ls[from
            + r]).len() == width && #[trigger] all[r * width + x] == tile_of(ls[from + r][x]) by {
            if r == row {
                assert(longer[row * width + x] == row_tiles(line)[x]);
                assert(all[row * width + x] == longer[row * width + x]);
            } else {
                assert(row + 1 <= r);
            }
        }
    } else {
        assert(row * width == height * width);
    }
}

/// A map that parses has one tile for each cell, and the tile of cell
/// `(x, y)` is the one that character `x` of row `y` stands for.
pub proof fn lemma_parsed_tiles(input: Seq<char>)
    requires
        parse_model(input) is Ok,
    ensures
        ({
            let map = parse_model(input)->Ok_0;
            let ls = lines(input);
            let first = Header { has_type: false, height: None, width: None };
            let from = read_header(ls, 0, first)->Ok_0.1;
            &&& map.tiles.len() == map.width * map.height
            &&& forall|x: int, y: int|
                0 <= x < map.width && 0 <= y < map.height ==> (#[trigger] ls[from + y]).len()
                    == map.width && #[trigger] map.tile_at(x, y) == Some(tile_of(ls[from + y][x]))
        }),
{
    let map = parse_model(input)->Ok_0;
    let ls = lines(input);
    let first = Header { has_type: false, height: None, width: None };
    let from = read_header(ls, 0, first)->Ok_0.1;
    lemma_read_header_from(ls, 0, first);
    lemma_read_rows(ls, from, 0, map.width, map.height, Seq::empty());
    assert(map.width * map.height == map.height * map.width) by (nonlinear_arith);
    assert forall|x: int, y: int| 0 <= x < map.width && 0 <= y < map.height implies (#[trigger] ls[from
        + y]).len() == map.width && #[trigger] map.tile_at(x, y) == Some(tile_of(ls[from + y][x])) by {
        assert(map.tiles[y * map.width + x] == tile_of(ls[from + y][x]));
    }
}

proof fn lemma_read_header_from(ls: Seq<Seq<char>>, from: int, h: Header)
    requires
        0 <= from,
        read_header(ls, from, h) is Ok,
    ensures
        read_header(ls, from, h)->Ok_0.1 >= 0,
    decreases ls.len() - from,
{
    if from < ls.len() && !is_map_line(ls[from]) {
        lemma_read_header_from(ls, from + 1, with_header_line(h, ls[from])->Ok_0);
    }
}

// ---------------------------------------------------------------------------
// A map written out reads back
// ---------------------------------------------------------------------------

/// The character a tile is written as: '.' for passable, '@' for blocked.
pub open spec fn tile_char(tile: Tile) -> char {
    match tile {
        Tile::Passable => '.',
        Tile::Blocked => '@',
    }
}

/// Row `y` of a map, written out.
pub open spec fn row_text(tiles: Seq<Tile>, width: u32, y: int) -> Seq<char> {
    Seq::new(width as nat, |x: int| tile_char(tiles[y * width + x]))
}

/// The rows from `from` on, each followed by a line feed.
pub open spec fn rows_text(tiles: Seq<Tile>, width: u32, height: u32, from: int) -> Seq<char>
    decreases height - from,
{
    if from < 0 || from >= height {
        Seq::empty()
    } else {
        row_text(tiles, width, from) + seq!['\n'] + rows_text(tiles, width, height, from + 1)
    }
}

/// A map written out in the map format: the type `octile`, the height, the
/// width, the `map` line, and the rows.
pub open spec fn written(m: MapModel) -> Seq<char> {
    "type octile"@ + seq!['\n'] + (("height "@ + decimal(m.height as nat)) + seq!['\n'] + (("width "@
        + decimal(m.width as nat)) + seq!['\n'] + ("map"@ + seq!['\n'] + rows_text(
        m.tiles,
        m.width,
        m.height,
        0,
    ))))
}

proof fn lemma_rows_lines(tiles: Seq<Tile>, width: u32, height: u32, from: int)
    requires
        0 <= from <= height,
    ensures
        lines(rows_text(tiles, width, height, from)) == Seq::new(
            (height - from) as nat,
            |k: int| row_text(tiles, width, from + k),
        ),
    decreases height - from,
{
    let expected = Seq::new((height - from) as nat, |k: int| row_text(tiles, width, from + k));
    if from < height {
        let row = row_text(tiles, width, from);
        let rest = rows_text(tiles, width, height, from + 1);
        lemma_rows_lines(tiles, width, height, from + 1);
        lemma_lines_after_line(row, rest);
        assert(seq![row] + lines(rest) =~= expected);
    } else {
        assert(lines(rows_text(tiles, width, height, from)) =~= expected);
    }
}

proof fn lemma_rows_read(
    ls: Seq<Seq<char>>,
    from: int,
    row: int,
    width: u32,
    height: u32,
    tiles: Seq<Tile>,
    above: Seq<Tile>,
)
    requires
        0 <= from,
        0 <= row <= height,
        ls.len() == from + height,
        forall|r: int| 0 <= r < height ==> #[trigger] ls[from + r] == row_text(tiles, width, r),
        tiles.len() == width * height,
        above.len() == row * width,
        forall|k: int| 0 <= k < above.len() ==> above[k] == tiles[k],
    ensures
        read_rows(ls, from, row, width, height, above) == Ok::<Seq<Tile>, MapFault>(tiles),
    decreases height - row,
{
    if row < height {
        let line = ls[from + row];
        assert(line == row_text(tiles, width, row));
        let longer = above + row_tiles(line);
        assert((row + 1) * width == row * width + width) by (nonlinear_arith);
        assert((row + 1) * width <= width * height) by (nonlinear_arith)
            requires
                row + 1 <= height,
                0 <= width,
        ;
        assert forall|k: int| 0 <= k < longer.len() implies longer[k] == tiles[k] by {
            if k >= above.len() {
                let x = k - above.len();
                assert(longer[k] == row_tiles(line)[x]);
                assert(line[x] == tile_char(tiles[row * width + x]));
            }
        }
        lemma_rows_read(ls, from, row + 1, width, height, tiles, longer);
    } else {
        assert(row * width == width * height) by (nonlinear_arith)
            requires
                row == height,
        ;
        assert(above =~= tiles);
    }
}

/// A map with one tile for each cell, written out, parses back to itself.
#[verifier::rlimit(30)]
pub proof fn lemma_written_parses(m: MapModel)
    requires
        m.tiles.len() == m.width * m.height,
    ensures
        parse_model(written(m)) == Ok::<MapModel, MapFault>(m),
{
    reveal_strlit("type octile");
    reveal_strlit("type ");
    reveal_strlit("height ");
    reveal_strlit("width ");
    reveal_strlit("map");
    let h = decimal(m.height as nat);
    let w = decimal(m.width as nat);
    lemma_decimal_digits(m.height as nat);
    lemma_decimal_digits(m.width as nat);
    lemma_decimal_reads_back(m.height as nat, u32::MAX as nat);
    lemma_decimal_reads_back(m.width as nat, u32::MAX as nat);
    let l1 = "type octile"@;
    let l2 = "height "@ + h;
    let l3 = "width "@ + w;
    let l4 = "map"@;
    let rows = rows_text(m.tiles, m.width, m.height, 0);
    let t4 = l4 + seq!['\n'] + rows;
    let t3 = l3 + seq!['\n'] + t4;
    let t2 = l2 + seq!['\n'] + t3;
    assert(written(m) == l1 + seq!['\n'] + t2);
    assert forall|i: int| 0 <= i < l2.len() implies #[trigger] l2[i] != '\n' && l2[i] != '\r' by {
        if i >= 7 {
            assert(l2[i] == h[i - 7]);
            assert(is_digit(h[i - 7]));
        }
    }
    assert forall|i: int| 0 <= i < l3.len() implies #[trigger] l3[i] != '\n' && l3[i] != '\r' by {
        if i >= 6 {
            assert(l3[i] == w[i - 6]);
            assert(is_digit(w[i - 6]));
        }
    }
    lemma_lines_after_line(l1, t2);
    lemma_lines_after_line(l2, t3);
    lemma_lines_after_line(l3, t4);
    lemma_lines_after_line(l4, rows);
    lemma_rows_lines(m.tiles, m.width, m.height, 0);
    let ls = lines(written(m));
    let row_lines = Seq::new(m.height as nat, |k: int| row_text(m.tiles, m.width, 0 + k));
    assert(ls =~= seq![l1, l2, l3, l4] + row_lines);
    assert(ls.len() == 4 + m.height);
    assert(ls[0] == l1 && ls[1] == l2 && ls[2] == l3 && ls[3] == l4);

    // The header lines, one by one.
    let h0 = Header { has_type: false, height: None, width: None };
    let h1 = Header { has_type: true, height: None, width: None };
    let h2 = Header { has_type: true, height: Some(m.height), width: None };
    let h3 = Header { has_type: true, height: Some(m.height), width: Some(m.width) };
    lemma_trim_plain(l1);
    assert(!is_map_line(l1));
    assert(l1.subrange(0, 5) =~= "type "@);
    assert(with_header_line(h0, l1) == Ok::<Header, MapFault>(h1));

    assert(is_digit(l2[l2.len() - 1])) by {
        assert(l2[l2.len() - 1] == h[h.len() - 1]);
    }
    lemma_trim_plain(l2);
    assert(!is_map_line(l2));
    assert(!has_prefix(l2, "type "@)) by {
        if has_prefix(l2, "type "@) {
            assert(l2.subrange(0, 5)[0] == "type "@[0]);
        }
    }
    assert(l2.subrange(0, 7) =~= "height "@);
    assert(after_key(l2, "height "@) =~= h);
    assert(is_digit(h[0]) && is_digit(h[h.len() - 1]));
    lemma_trim_plain(h);
    assert(with_header_line(h1, l2) == Ok::<Header, MapFault>(h2));

    assert(is_digit(l3[l3.len() - 1])) by {
        assert(l3[l3.len() - 1] == w[w.len() - 1]);
    }
    lemma_trim_plain(l3);
    assert(!is_map_line(l3));
    assert(!has_prefix(l3, "type "@)) by {
        if has_prefix(l3, "type "@) {
            assert(l3.subrange(0, 5)[0] == "type "@[0]);
        }
    }
    assert(!has_prefix(l3, "height "@)) by {
        if has_prefix(l3, "height "@) {
            assert(l3.subrange(0, 7)[0] == "height "@[0]);
        }
    }
    assert(l3.subrange(0, 6) =~= "width "@);
    assert(after_key(l3, "width "@) =~= w);
    assert(is_digit(w[0]) && is_digit(w[w.len() - 1]));
    lemma_trim_plain(w);
    assert(with_header_line(h2, l3) == Ok::<Header, MapFault>(h3));

    lemma_trim_plain(l4);
    assert(is_map_line(l4));

    assert(read_header(ls, 3, h3) == Ok::<(Header, int), MapFault>((h3, 4)));
    assert(read_header(ls, 2, h2) == Ok::<(Header, int), MapFault>((h3, 4)));
    assert(read_header(ls, 1, h1) == Ok::<(Header, int), MapFault>((h3, 4)));
    assert(read_header(ls, 0, h0) == Ok::<(Header, int), MapFault>((h3, 4)));

    assert forall|r: int| 0 <= r < m.height implies #[trigger] ls[4 + r] == row_text(
        m.tiles,
        m.width,
        r,
    ) by {
        assert(ls[4 + r] == row_lines[r]);
    }
    lemma_rows_read(ls, 4, 0, m.width, m.height, m.tiles, Seq::empty());
}

} // verus!
