//! The endgame tablebase file: an 8-byte magic, a table count, then per
//! table six little-endian 32-bit fields (type, layer count, initial sum, the
//! two bounds of its rates, flags) and per layer eight (bucket count, entry
//! count, then offset and length of its seeds, signatures and rates), then
//! the blob that the offsets point into. Each layer is a perfect hash from a
//! compressed board to a 16-bit rate.

use vstd::prelude::*;
use crate::endgame::format::{le_u32, le_u16, mix32, mix32_spec, read_u32, read_u16_at, checked_range};

verus! {

/// The magic bytes "P8ETB001".
pub const TABLE_MAGIC: [u8; 8] = [0x50, 0x38, 0x45, 0x54, 0x42, 0x30, 0x30, 0x31];

/// A table flag: boards are looked up by their diagonal-canonical form.
pub const DIAGONAL_CANONICAL_FLAG: u32 = 1;

/// One layer of a table: its bucket and entry counts and where its seeds,
/// signatures and rates start in the blob.
#[derive(Clone, Copy)]
pub struct Layer {
    pub buckets: u32,
    pub len: u32,
    pub seed_offset: u32,
    pub sig_offset: u32,
    pub rate_offset: u32,
}

/// A table: its type, the board sum of its first layer, the bit patterns of
/// the two 32-bit floats that bound its rates, its flags and its layers.
pub struct Table {
    pub table_type: u32,
    pub initial_sum: i32,
    pub lower_bits: u32,
    pub upper_bits: u32,
    pub flags: u32,
    pub layers: Vec<Layer>,
}

/// A table as the file describes it.
pub struct TableSpec {
    pub table_type: u32,
    pub initial_sum: i32,
    pub lower_bits: u32,
    pub upper_bits: u32,
    pub flags: u32,
    pub layers: Seq<Layer>,
}

/// The parsed tablebase: its tables and the blob their layers point into.
pub struct Tablebase<'a> {
    pub tables: Vec<Table>,
    pub blob: &'a [u8],
}

/// The 32-bit little-endian value at `pos`.
pub open spec fn le32_at(bytes: Seq<u8>, pos: int) -> u32 {
    le_u32(bytes.subrange(pos, pos + 4)) as u32
}

/// The error of reading `n` consecutive 32-bit values from `pos`, if any.
pub open spec fn reads_error(len: int, pos: int, n: int) -> Option<&'static str>
    decreases n,
{
    if n <= 0 {
        None
    } else if pos + 4 > usize::MAX {
        Some("tablebase offset overflow")
    } else if pos + 4 > len {
        Some("truncated tablebase")
    } else {
        reads_error(len, pos + 4, n - 1)
    }
}

/// The layer record at `pos`.
pub open spec fn layer_at(bytes: Seq<u8>, pos: int) -> Layer {
    Layer {
        buckets: le32_at(bytes, pos),
        len: le32_at(bytes, pos + 4),
        seed_offset: le32_at(bytes, pos + 8),
        sig_offset: le32_at(bytes, pos + 16),
        rate_offset: le32_at(bytes, pos + 24),
    }
}

/// Whether the layer record at `pos` gives the seeds one entry per bucket
/// and the signatures and rates one per entry.
pub open spec fn layer_lengths_ok(bytes: Seq<u8>, pos: int) -> bool {
    le32_at(bytes, pos) == le32_at(bytes, pos + 12) && le32_at(bytes, pos + 4) == le32_at(bytes, pos + 20)
        && le32_at(bytes, pos + 4) == le32_at(bytes, pos + 28)
}

/// The `n` layer records from `pos`, with the position after them.
pub open spec fn parse_layers(bytes: Seq<u8>, pos: int, n: int) -> Result<(Seq<Layer>, int), &'static str>
    decreases n,
{
    if n <= 0 {
        Ok((seq![], pos))
    } else {
        match reads_error(bytes.len() as int, pos, 8) {
            Some(e) => Err(e),
            None => if !layer_lengths_ok(bytes, pos) {
                Err("bad tablebase layer lengths")
            } else {
                match parse_layers(bytes, pos + 32, n - 1) {
                    Ok(r) => Ok((seq![layer_at(bytes, pos)] + r.0, r.1)),
                    Err(e) => Err(e),
                }
            },
        }
    }
}

/// The table whose header is at `pos`, with the given layers.
pub open spec fn table_at(bytes: Seq<u8>, pos: int, layers: Seq<Layer>) -> TableSpec {
    TableSpec {
        table_type: le32_at(bytes, pos),
        initial_sum: le32_at(bytes, pos + 8) as i32,
        lower_bits: le32_at(bytes, pos + 12),
        upper_bits: le32_at(bytes, pos + 16),
        flags: le32_at(bytes, pos + 20),
        layers,
    }
}

/// The `n` tables from `pos`, with the position after them.
pub open spec fn parse_tables(bytes: Seq<u8>, pos: int, n: int) -> Result<(Seq<TableSpec>, int), &'static str>
    decreases n,
{
    if n <= 0 {
        Ok((seq![], pos))
    } else {
        match reads_error(bytes.len() as int, pos, 6) {
            Some(e) => Err(e),
            None => match parse_layers(bytes, pos + 24, le32_at(bytes, pos + 4) as int) {
                Err(e) => Err(e),
                Ok(l) => match parse_tables(bytes, l.1, n - 1) {
                    Ok(r) => Ok((seq![table_at(bytes, pos, l.0)] + r.0, r.1)),
                    Err(e) => Err(e),
                },
            },
        }
    }
}

/// The error of a range of `len` bytes from `offset` in a blob of `blob_len` bytes, if any.
pub open spec fn range_error(blob_len: int, offset: int, len: int) -> Option<&'static str> {
    if offset + len > usize::MAX {
        Some("tablebase range overflow")
    } else if offset + len > blob_len {
        Some("tablebase range out of bounds")
    } else {
        None
    }
}

/// The first error among a layer's seed, signature and rate ranges.
pub open spec fn layer_range_error(blob_len: int, l: Layer) -> Option<&'static str> {
    if range_error(blob_len, l.seed_offset as int, l.buckets * 2) is Some {
        range_error(blob_len, l.seed_offset as int, l.buckets * 2)
    } else if range_error(blob_len, l.sig_offset as int, l.len as int) is Some {
        range_error(blob_len, l.sig_offset as int, l.len as int)
    } else {
        range_error(blob_len, l.rate_offset as int, l.len * 2)
    }
}

/// The first range error among some layers, in order.
pub open spec fn layers_range_error(blob_len: int, layers: Seq<Layer>) -> Option<&'static str>
    decreases layers.len(),
{
    if layers.len() == 0 {
        None
    } else if layer_range_error(blob_len, layers[0]) is Some {
        layer_range_error(blob_len, layers[0])
    } else {
        layers_range_error(blob_len, layers.drop_first())
    }
}

/// The first range error among the layers of some tables, in order.
pub open spec fn tables_range_error(blob_len: int, tables: Seq<TableSpec>) -> Option<&'static str>
    decreases tables.len(),
{
    if tables.len() == 0 {
        None
    } else if layers_range_error(blob_len, tables[0].layers) is Some {
        layers_range_error(blob_len, tables[0].layers)
    } else {
        tables_range_error(blob_len, tables.drop_first())
    }
}

/// The tablebase file: the magic, the table count, the tables, and every
/// layer's ranges within the blob that follows them. The result is the
/// tables and where the blob starts.
pub open spec fn parse_spec(bytes: Seq<u8>) -> Result<(Seq<TableSpec>, int), &'static str> {
    if bytes.len() < 12 || bytes.subrange(0, 8) != TABLE_MAGIC@ {
        Err("bad tablebase magic")
    } else {
        match parse_tables(bytes, 12, le32_at(bytes, 8) as int) {
            Err(e) => Err(e),
            Ok(r) => match tables_range_error(bytes.len() - r.1, r.0) {
                Some(e) => Err(e),
                None => Ok(r),
            },
        }
    }
}

impl Table {
    /// The table as the file describes it.
    pub open spec fn spec(&self) -> TableSpec {
        TableSpec {
            table_type: self.table_type,
            initial_sum: self.initial_sum,
            lower_bits: self.lower_bits,
            upper_bits: self.upper_bits,
            flags: self.flags,
            layers: self.layers@,
        }
    }
}

/// Every layer's seeds, signatures and rates lie within the blob.
pub open spec fn layer_in_blob(blob_len: int, l: Layer) -> bool {
    &&& l.seed_offset + l.buckets * 2 <= blob_len
    &&& l.sig_offset + l.len <= blob_len
    &&& l.rate_offset + l.len * 2 <= blob_len
}

impl<'a> Tablebase<'a> {
    /// The tables as the file describes them.
    pub open spec fn specs(&self) -> Seq<TableSpec> {
        self.tables@.map_values(|t: Table| t.spec())
    }

    /// Every layer of every table lies within the blob.
    pub open spec fn wf(&self) -> bool {
        forall|t: int, l: int| 0 <= t < self.tables@.len() && 0 <= l < self.tables@[t].layers@.len()
            ==> layer_in_blob(self.blob@.len() as int, #[trigger] self.tables@[t].layers@[l])
    }
}

proof fn lemma_reads_ok(len: int, pos: int, n: int)
    requires
        0 <= pos,
        0 <= n,
        len <= usize::MAX,
    ensures
        reads_error(len, pos, n) is None <==> (n == 0 || pos + 4 * n <= len),
    decreases n,
{
    if n > 0 {
        lemma_reads_ok(len, pos + 4, n - 1);
        if pos + 4 > usize::MAX {
            assert(reads_error(len, pos, n) is Some);
        } else if pos + 4 > len {
            assert(reads_error(len, pos, n) is Some);
        } else {
            assert(reads_error(len, pos, n) == reads_error(len, pos + 4, n - 1));
        }
    }
}

proof fn lemma_layers_in_blob(blob_len: int, layers: Seq<Layer>)
    requires
        blob_len <= usize::MAX,
        layers_range_error(blob_len, layers) is None,
    ensures
        forall|l: int| 0 <= l < layers.len() ==> layer_in_blob(blob_len, #[trigger] layers[l]),
    decreases layers.len(),
{
    if layers.len() > 0 {
        lemma_layers_in_blob(blob_len, layers.drop_first());
        assert forall|l: int| 0 <= l < layers.len() implies layer_in_blob(blob_len, #[trigger] layers[l]) by {
            if l > 0 {
                assert(layers[l] == layers.drop_first()[l - 1]);
            }
        }
    }
}

proof fn lemma_tables_in_blob(blob_len: int, tables: Seq<TableSpec>)
    requires
        blob_len <= usize::MAX,
        tables_range_error(blob_len, tables) is None,
    ensures
        forall|t: int, l: int| 0 <= t < tables.len() && 0 <= l < tables[t].layers.len()
            ==> layer_in_blob(blob_len, #[trigger] tables[t].layers[l]),
    decreases tables.len(),
{
    if tables.len() > 0 {
        lemma_tables_in_blob(blob_len, tables.drop_first());
        lemma_layers_in_blob(blob_len, tables[0].layers);
        assert forall|t: int, l: int| 0 <= t < tables.len() && 0 <= l < tables[t].layers.len()
            implies layer_in_blob(blob_len, #[trigger] tables[t].layers[l]) by {
            if t > 0 {
                assert(tables[t] == tables.drop_first()[t - 1]);
            }
        }
    }
}

/// Reads `n` consecutive little-endian 32-bit values at `*pos`, moving
/// `*pos` past them; errors as the first read that fails.
fn read_u32_fields(bytes: &[u8], pos: &mut usize, n: usize) -> (r: Result<Vec<u32>, &'static str>)
    ensures
        reads_error(bytes@.len() as int, *old(pos) as int, n as int) is Some ==> r == Err::<Vec<u32>, &'static str>(
            reads_error(bytes@.len() as int, *old(pos) as int, n as int)->Some_0,
        ),
        reads_error(bytes@.len() as int, *old(pos) as int, n as int) is None ==> r is Ok
            && r->Ok_0@.len() == n
            && (forall|k: int| 0 <= k < n ==> #[trigger] r->Ok_0@[k] == le32_at(bytes@, *old(pos) + 4 * k))
            && *final(pos) == *old(pos) + 4 * n,
{
    let ghost p0 = *pos as int;
    let blen = bytes.len();
    let mut out: Vec<u32> = Vec::new();
    let mut k = 0usize;
    while k < n
        invariant
            k <= n,
            p0 == *old(pos),
            blen == bytes@.len(),
            *pos == p0 + 4 * k,
            out@.len() == k,
            forall|t: int| 0 <= t < k ==> #[trigger] out@[t] == le32_at(bytes@, p0 + 4 * t),
            reads_error(bytes@.len() as int, p0, n as int) == reads_error(bytes@.len() as int, *pos as int, (n - k) as int),
        decreases n - k,
    {
        let ghost pk = *pos as int;
        proof {
            assert(reads_error(bytes@.len() as int, pk, (n - k) as int) == if pk + 4 > usize::MAX {
                Some("tablebase offset overflow")
            } else if pk + 4 > bytes@.len() {
                Some("truncated tablebase")
            } else {
                reads_error(bytes@.len() as int, pk + 4, (n - k - 1) as int)
            });
        }
        match read_u32(bytes, pos) {
            Ok(v) => {
                out.push(v);
                k += 1;
            },
            Err(e) => {
                proof {
                    if pk + 4 > usize::MAX {
                        assert(e == "tablebase offset overflow");
                    } else {
                        assert(e == "truncated tablebase");
                    }
                }
                return Err(e);
            },
        }
    }
    Ok(out)
}

/// Reads `n` layer records at `*pos` (see `parse_layers`).
fn read_layers(bytes: &[u8], pos: &mut usize, n: u32) -> (r: Result<Vec<Layer>, &'static str>)
    ensures
        parse_layers(bytes@, *old(pos) as int, n as int) is Err ==> r == Err::<Vec<Layer>, &'static str>(
            parse_layers(bytes@, *old(pos) as int, n as int)->Err_0,
        ),
        parse_layers(bytes@, *old(pos) as int, n as int) is Ok ==> r is Ok
            && r->Ok_0@ == parse_layers(bytes@, *old(pos) as int, n as int)->Ok_0.0
            && *final(pos) == parse_layers(bytes@, *old(pos) as int, n as int)->Ok_0.1,
{
    let ghost p0 = *pos as int;
    let blen = bytes.len();
    let mut layers: Vec<Layer> = Vec::new();
    let mut i = 0u32;
    while i < n
        invariant
            i <= n,
            p0 == *old(pos),
            blen == bytes@.len(),
            parse_layers(bytes@, p0, n as int) == match parse_layers(bytes@, *pos as int, (n - i) as int) {
                Ok(r) => Ok((layers@ + r.0, r.1)),
                Err(e) => Err(e),
            },
        decreases n - i,
    {
        let ghost pi = *pos as int;
        let fields = match read_u32_fields(bytes, pos, 8) {
            Ok(f) => f,
            Err(e) => {
                return Err(e);
            },
        };
        proof {
            lemma_reads_ok(bytes@.len() as int, pi, 8);
            assert(fields@[0] == le32_at(bytes@, pi));
            assert(fields@[1] == le32_at(bytes@, pi + 4));
            assert(fields@[2] == le32_at(bytes@, pi + 8));
            assert(fields@[3] == le32_at(bytes@, pi + 12));
            assert(fields@[4] == le32_at(bytes@, pi + 16));
            assert(fields@[5] == le32_at(bytes@, pi + 20));
            assert(fields@[6] == le32_at(bytes@, pi + 24));
            assert(fields@[7] == le32_at(bytes@, pi + 28));
        }
        let buckets = fields[0];
        let len = fields[1];
        let seed_offset = fields[2];
        let seed_len = fields[3];
        let sig_offset = fields[4];
        let sig_len = fields[5];
        let rate_offset = fields[6];
        let rate_len = fields[7];
        if buckets != seed_len || len != sig_len || len != rate_len {
            return Err("bad tablebase layer lengths");
        }
        let layer = Layer { buckets, len, seed_offset, sig_offset, rate_offset };
        proof {
            assert(layer == layer_at(bytes@, pi));
            let rest = parse_layers(bytes@, pi + 32, (n - i - 1) as int);
            if rest is Ok {
                assert(layers@.push(layer) + rest->Ok_0.0 =~= layers@ + (seq![layer] + rest->Ok_0.0));
            }
        }
        layers.push(layer);
        i += 1;
    }
    proof {
        assert(layers@ + seq![] =~= layers@);
    }
    Ok(layers)
}

/// Reads `n` tables at `*pos` (see `parse_tables`).
fn read_tables(bytes: &[u8], pos: &mut usize, n: u32) -> (r: Result<Vec<Table>, &'static str>)
    ensures
        parse_tables(bytes@, *old(pos) as int, n as int) is Err ==> r == Err::<Vec<Table>, &'static str>(
            parse_tables(bytes@, *old(pos) as int, n as int)->Err_0,
        ),
        parse_tables(bytes@, *old(pos) as int, n as int) is Ok ==> r is Ok
            && r->Ok_0@.map_values(|t: Table| t.spec()) == parse_tables(bytes@, *old(pos) as int, n as int)->Ok_0.0
            && *final(pos) == parse_tables(bytes@, *old(pos) as int, n as int)->Ok_0.1,
{
    let ghost p0 = *pos as int;
    let blen = bytes.len();
    let mut tables: Vec<Table> = Vec::new();
    let mut i = 0u32;
    while i < n
        invariant
            i <= n,
            p0 == *old(pos),
            blen == bytes@.len(),
            parse_tables(bytes@, p0, n as int) == match parse_tables(bytes@, *pos as int, (n - i) as int) {
                Ok(r) => Ok((tables@.map_values(|t: Table| t.spec()) + r.0, r.1)),
                Err(e) => Err(e),
            },
        decreases n - i,
    {
        let ghost pi = *pos as int;
        let fields = match read_u32_fields(bytes, pos, 6) {
            Ok(f) => f,
            Err(e) => {
                return Err(e);
            },
        };
        proof {
            lemma_reads_ok(bytes@.len() as int, pi, 6);
            assert(fields@[0] == le32_at(bytes@, pi));
            assert(fields@[1] == le32_at(bytes@, pi + 4));
            assert(fields@[2] == le32_at(bytes@, pi + 8));
            assert(fields@[3] == le32_at(bytes@, pi + 12));
            assert(fields@[4] == le32_at(bytes@, pi + 16));
            assert(fields@[5] == le32_at(bytes@, pi + 20));
        }
        let table_type = fields[0];
        let layer_count = fields[1];
        let initial_sum = fields[2] as i32;
        let lower_bits = fields[3];
        let upper_bits = fields[4];
        let flags = fields[5];
        let layers = match read_layers(bytes, pos, layer_count) {
            Ok(l) => l,
            Err(e) => {
                return Err(e);
            },
        };
        let table = Table { table_type, initial_sum, lower_bits, upper_bits, flags, layers };
        proof {
            let l = parse_layers(bytes@, pi + 24, layer_count as int);
            assert(table.spec() == table_at(bytes@, pi, l->Ok_0.0));
            let rest = parse_tables(bytes@, l->Ok_0.1, (n - i - 1) as int);
            assert(tables@.push(table).map_values(|t: Table| t.spec()) =~= tables@.map_values(|t: Table| t.spec()).push(table.spec()));
            if rest is Ok {
                assert(tables@.map_values(|t: Table| t.spec()).push(table.spec()) + rest->Ok_0.0
                    =~= tables@.map_values(|t: Table| t.spec()) + (seq![table.spec()] + rest->Ok_0.0));
            }
        }
        tables.push(table);
        i += 1;
    }
    proof {
        assert(tables@.map_values(|t: Table| t.spec()) + seq![] =~= tables@.map_values(|t: Table| t.spec()));
    }
    Ok(tables)
}

/// Checks the seed, signature and rate ranges of a layer (see `layer_range_error`).
fn check_layer_ranges(blob: &[u8], layer: Layer) -> (r: Result<(), &'static str>)
    ensures
        layer_range_error(blob@.len() as int, layer) is Some ==> r == Err::<(), &'static str>(layer_range_error(blob@.len() as int, layer)->Some_0),
        layer_range_error(blob@.len() as int, layer) is None ==> r is Ok,
{
    match (layer.buckets as usize).checked_mul(2) {
        Some(n) => {
            match checked_range(blob, layer.seed_offset, n) {
                Ok(()) => {},
                Err(e) => {
                    return Err(e);
                },
            }
        },
        None => {
            return Err("tablebase range overflow");
        },
    }
    match checked_range(blob, layer.sig_offset, layer.len as usize) {
        Ok(()) => {},
        Err(e) => {
            return Err(e);
        },
    }
    match (layer.len as usize).checked_mul(2) {
        Some(n) => checked_range(blob, layer.rate_offset, n),
        None => Err("tablebase range overflow"),
    }
}

/// Checks the ranges of every layer of every table, in order (see `tables_range_error`).
fn check_ranges(blob: &[u8], tables: &Vec<Table>) -> (r: Result<(), &'static str>)
    ensures
        ({
            let specs = tables@.map_values(|t: Table| t.spec());
            &&& tables_range_error(blob@.len() as int, specs) is Some ==> r == Err::<(), &'static str>(
                tables_range_error(blob@.len() as int, specs)->Some_0,
            )
            &&& tables_range_error(blob@.len() as int, specs) is None ==> r is Ok
        }),
{
    let ghost specs = tables@.map_values(|t: Table| t.spec());
    let ghost bl = blob@.len() as int;
    proof {
        assert(specs.skip(0) =~= specs);
    }
    let mut t = 0usize;
    while t < tables.len()
        invariant
            t <= tables@.len(),
            specs == tables@.map_values(|t: Table| t.spec()),
            bl == blob@.len(),
            tables_range_error(bl, specs) == tables_range_error(bl, specs.skip(t as int)),
        decreases tables@.len() - t,
    {
        let table = &tables[t];
        let ghost layers = table.layers@;
        assert(specs.skip(t as int)[0].layers == layers);
        proof {
            assert(layers.skip(0) =~= layers);
        }
        let mut l = 0usize;
        while l < table.layers.len()
            invariant
                l <= layers.len(),
                layers == table.layers@,
                bl == blob@.len(),
                t < tables@.len(),
                specs == tables@.map_values(|t: Table| t.spec()),
                specs.skip(t as int).len() > 0,
                specs.skip(t as int)[0].layers == layers,
                tables_range_error(bl, specs) == tables_range_error(bl, specs.skip(t as int)),
                layers_range_error(bl, layers) == layers_range_error(bl, layers.skip(l as int)),
            decreases layers.len() - l,
        {
            let layer = table.layers[l];
            proof {
                assert(layers.skip(l as int)[0] == layer);
                assert(layers.skip(l as int).drop_first() =~= layers.skip(l + 1));
            }
            match check_layer_ranges(blob, layer) {
                Ok(()) => {},
                Err(e) => {
                    proof {
                        assert(layers_range_error(bl, layers) == layer_range_error(bl, layer));
                        assert(tables_range_error(bl, specs.skip(t as int)) == layers_range_error(bl, layers));
                    }
                    return Err(e);
                },
            }
            l += 1;
        }
        proof {
            assert(layers.skip(l as int).len() == 0);
            assert(specs.skip(t as int).drop_first() =~= specs.skip(t + 1));
        }
        t += 1;
    }
    proof {
        assert(specs.skip(t as int).len() == 0);
    }
    Ok(())
}

/// Whether the bytes start with the magic.
fn has_magic(bytes: &[u8]) -> (r: bool)
    requires
        bytes@.len() >= 8,
    ensures
        r == (bytes@.subrange(0, 8) == TABLE_MAGIC@),
{
    let mut i = 0usize;
    while i < 8
        invariant
            i <= 8 <= bytes@.len(),
            forall|k: int| 0 <= k < i ==> #[trigger] bytes@[k] == TABLE_MAGIC@[k],
        decreases 8 - i,
    {
        if bytes[i] != TABLE_MAGIC[i] {
            proof {
                assert(bytes@.subrange(0, 8)[i as int] != TABLE_MAGIC@[i as int]);
            }
            return false;
        }
        i += 1;
    }
    proof {
        assert(bytes@.subrange(0, 8) =~= TABLE_MAGIC@);
    }
    true
}

/// Parses a tablebase file (see `parse_spec`): the tables, and the blob after
/// them, whose every layer range the parse has checked.
pub fn parse_tablebase<'a>(bytes: &'a [u8]) -> (r: Result<Tablebase<'a>, &'static str>)
    ensures
        parse_spec(bytes@) is Err ==> r is Err && r->Err_0 == parse_spec(bytes@)->Err_0,
        parse_spec(bytes@) is Ok ==> r is Ok
            && r->Ok_0.specs() == parse_spec(bytes@)->Ok_0.0
            && r->Ok_0.blob@ == bytes@.subrange(parse_spec(bytes@)->Ok_0.1, bytes@.len() as int)
            && r->Ok_0.wf(),
{
    if bytes.len() < 12 || !has_magic(bytes) {
        return Err("bad tablebase magic");
    }
    let mut pos = 8usize;
    let table_count = match read_u32(bytes, &mut pos) {
        Ok(n) => n,
        Err(e) => {
            return Err(e);
        },
    };
    let tables = match read_tables(bytes, &mut pos, table_count) {
        Ok(t) => t,
        Err(e) => {
            return Err(e);
        },
    };
    proof {
        assert(pos <= bytes@.len()) by {
            lemma_parse_tables_pos(bytes@, 12, table_count as int);
        }
    }
    let blob = vstd::slice::slice_subrange(bytes, pos, bytes.len());
    match check_ranges(blob, &tables) {
        Ok(()) => {},
        Err(e) => {
            return Err(e);
        },
    }
    let tb = Tablebase { tables, blob };
    proof {
        let specs = tb.tables@.map_values(|t: Table| t.spec());
        lemma_tables_in_blob(blob@.len() as int, specs);
        assert forall|t: int, l: int| 0 <= t < tb.tables@.len() && 0 <= l < tb.tables@[t].layers@.len()
            implies layer_in_blob(tb.blob@.len() as int, #[trigger] tb.tables@[t].layers@[l]) by {
            assert(specs[t].layers == tb.tables@[t].layers@);
        }
    }
    Ok(tb)
}

proof fn lemma_parse_layers_pos(bytes: Seq<u8>, pos: int, n: int)
    requires
        0 <= pos <= bytes.len(),
        bytes.len() <= usize::MAX,
        parse_layers(bytes, pos, n) is Ok,
    ensures
        pos <= parse_layers(bytes, pos, n)->Ok_0.1 <= bytes.len(),
    decreases n,
{
    if n > 0 {
        lemma_reads_ok(bytes.len() as int, pos, 8);
        lemma_parse_layers_pos(bytes, pos + 32, n - 1);
    }
}

proof fn lemma_parse_tables_pos(bytes: Seq<u8>, pos: int, n: int)
    requires
        0 <= pos <= bytes.len(),
        bytes.len() <= usize::MAX,
        parse_tables(bytes, pos, n) is Ok,
    ensures
        pos <= parse_tables(bytes, pos, n)->Ok_0.1 <= bytes.len(),
    decreases n,
{
    if n > 0 {
        lemma_reads_ok(bytes.len() as int, pos, 6);
        let l = parse_layers(bytes, pos + 24, le32_at(bytes, pos + 4) as int);
        lemma_parse_layers_pos(bytes, pos + 24, le32_at(bytes, pos + 4) as int);
        lemma_parse_tables_pos(bytes, l->Ok_0.1, n - 1);
    }
}

/// The signature byte expected for a compressed board: its four bytes summed.
pub open spec fn expected_sig(b: u32) -> u8 {
    ((b + (b >> 8u32) + (b >> 16u32) + (b >> 24u32)) % 256) as u8
}

/// What a layer's perfect hash gives for a compressed board: the seed of the
/// board's bucket picks an entry; if the entry's signature byte is the
/// board's, its rate. `None` when the layer is missing or empty, or a read
/// falls outside the blob.
pub open spec fn perfect_hash_lookup(blob: Seq<u8>, layers: Seq<Layer>, b: u32, layer_idx: i32) -> Option<u16> {
    let li = layer_idx as usize as int;
    if li >= layers.len() {
        None
    } else {
        let l = layers[li];
        if l.buckets == 0 || l.len == 0 {
            None
        } else {
            let bucket = mix32_spec(b) % l.buckets;
            let sp = l.seed_offset + bucket * 2;
            if sp + 2 > blob.len() {
                None
            } else {
                let seed = le_u16(blob.subrange(sp, sp + 2)) as u16;
                let hash_idx = mix32_spec(b ^ (seed as u32)) % l.len;
                let gp = l.sig_offset + hash_idx;
                if gp >= blob.len() {
                    None
                } else if blob[gp] != expected_sig(b) {
                    None
                } else {
                    let rp = l.rate_offset + hash_idx * 2;
                    if rp + 2 > blob.len() {
                        None
                    } else {
                        Some(le_u16(blob.subrange(rp, rp + 2)) as u16)
                    }
                }
            }
        }
    }
}

/// A seeded perfect hash finds the keys stored in it: when the seed stored
/// for the key's bucket (`mix32(key) % buckets`) is `seed`, and the entry at
/// `mix32(key ^ seed) % len` holds the key's signature byte (its four bytes
/// summed) and the rate `rate`, looking the key up in that layer gives `rate`.
pub proof fn lemma_lookup_finds_stored_key(blob: Seq<u8>, layers: Seq<Layer>, li: i32, key: u32, seed: u16, rate: u16)
    requires
        0 <= li < layers.len(),
        layers[li as int].buckets > 0,
        layers[li as int].len > 0,
        layer_in_blob(blob.len() as int, layers[li as int]),
        ({
            let l = layers[li as int];
            let sp = l.seed_offset + (mix32_spec(key) % l.buckets) * 2;
            let slot = mix32_spec(key ^ (seed as u32)) % l.len;
            &&& le_u16(blob.subrange(sp, sp + 2)) == seed
            &&& blob[l.sig_offset + slot] == ((key + (key >> 8u32) + (key >> 16u32) + (key >> 24u32)) % 256) as u8
            &&& le_u16(blob.subrange(l.rate_offset + slot * 2, l.rate_offset + slot * 2 + 2)) == rate
        }),
    ensures
        perfect_hash_lookup(blob, layers, key, li) == Some(rate),
{
    let l = layers[li as int];
    assert(li as usize as int == li as int);
    let bucket = mix32_spec(key) % l.buckets;
    let slot = mix32_spec(key ^ (seed as u32)) % l.len;
    assert(bucket < l.buckets);
    assert(slot < l.len);
    assert(l.seed_offset + bucket * 2 + 2 <= blob.len()) by (nonlinear_arith)
        requires
            bucket < l.buckets,
            l.seed_offset + l.buckets * 2 <= blob.len(),
    ;
    assert(l.rate_offset + slot * 2 + 2 <= blob.len()) by (nonlinear_arith)
        requires
            slot < l.len,
            l.rate_offset + l.len * 2 <= blob.len(),
    ;
}

/// A layer answers a key only from the entry its bucket's seed picks, and
/// only when that entry holds the key's signature byte: any rate a lookup
/// gives is the one stored at `mix32(key ^ seed) % len`.
pub proof fn lemma_lookup_answers_from_seeded_entry(blob: Seq<u8>, layers: Seq<Layer>, li: i32, key: u32)
    requires
        0 <= li < layers.len(),
        layers[li as int].buckets > 0,
        layers[li as int].len > 0,
        layer_in_blob(blob.len() as int, layers[li as int]),
    ensures
        perfect_hash_lookup(blob, layers, key, li) is Some ==> ({
            let l = layers[li as int];
            let sp = l.seed_offset + (mix32_spec(key) % l.buckets) * 2;
            let seed = le_u16(blob.subrange(sp, sp + 2)) as u16;
            let slot = mix32_spec(key ^ (seed as u32)) % l.len;
            &&& blob[l.sig_offset + slot] == ((key + (key >> 8u32) + (key >> 16u32) + (key >> 24u32)) % 256) as u8
            &&& perfect_hash_lookup(blob, layers, key, li) == Some(
                le_u16(blob.subrange(l.rate_offset + slot * 2, l.rate_offset + slot * 2 + 2)) as u16,
            )
        }),
{
    assert(li as usize as int == li as int);
}

/// Looks a compressed board up in a layer of a table (see `perfect_hash_lookup`).
pub fn query_perfect_hash(tablebase: &Tablebase, table: &Table, b: u32, layer_idx: i32) -> (r: Option<u16>)
    requires
        forall|l: int| 0 <= l < table.layers@.len() ==> layer_in_blob(tablebase.blob@.len() as int, #[trigger] table.layers@[l]),
        b + (b >> 8u32) + (b >> 16u32) + (b >> 24u32) <= u32::MAX,
    ensures
        r == perfect_hash_lookup(tablebase.blob@, table.layers@, b, layer_idx),
{
    let li = layer_idx as usize;
    if li >= table.layers.len() {
        return None;
    }
    let layer = table.layers[li];
    assert(layer_in_blob(tablebase.blob@.len() as int, layer));
    if layer.buckets == 0 || layer.len == 0 {
        return None;
    }
    let blen = tablebase.blob.len();
    let bucket = mix32(b) % layer.buckets;
    assert(bucket < layer.buckets);
    assert(layer.seed_offset + bucket * 2 + 2 <= blen);
    let seed = match read_u16_at(tablebase.blob, layer.seed_offset as usize + bucket as usize * 2) {
        Some(s) => s,
        None => {
            return None;
        },
    };
    let hash_idx = mix32(b ^ (seed as u32)) % layer.len;
    assert(hash_idx < layer.len);
    assert(layer.rate_offset + hash_idx * 2 + 2 <= blen);
    let gp = layer.sig_offset as usize + hash_idx as usize;
    if gp >= tablebase.blob.len() {
        return None;
    }
    let sig = tablebase.blob[gp];
    let sum = b + (b >> 8) + (b >> 16) + (b >> 24);
    let expected = (sum & 0xff) as u8;
    proof {
        lemma_low_byte(sum);
    }
    if sig == expected {
        read_u16_at(tablebase.blob, layer.rate_offset as usize + hash_idx as usize * 2)
    } else {
        None
    }
}

proof fn lemma_low_byte(x: u32)
    by (bit_vector)
    ensures
        x & 0xff == x % 256,
{
}

} // verus!
