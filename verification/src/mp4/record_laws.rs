//! What decoder configuration records hold.
use vstd::prelude::*;
use crate::bytes::{be16, group_be_len, lemma_be16, lemma_u32_in, u16_at};
use crate::http::snapshot::with_lengths;
use crate::media::CodecId;
use crate::mp4::entries::first_sps;
use crate::mp4::records::{
    avcc_record, config_rate, count_units, hvcc_record, nal_type, nalus_from, unit_bytes,
    video_info,
};

verus! {

proof fn lemma_split(before: Seq<u8>, units: Seq<Seq<u8>>)
    requires
        forall|i: int| 0 <= i < units.len() ==> (#[trigger] units[i]).len() <= u32::MAX,
    ensures
        nalus_from(before + with_lengths(units), before.len() as int) == units,
    decreases units.len(),
{
    broadcast use group_be_len;

    let data = before + with_lengths(units);
    let i = before.len() as int;
    if units.len() == 0 {
        assert(data =~= before);
        assert(units =~= Seq::<Seq<u8>>::empty());
    } else {
        let unit = units[0];
        let rest = units.skip(1);
        let head = crate::bytes::be32(unit.len() as int);
        let next = before + head + unit;
        assert(data =~= next + with_lengths(rest));
        lemma_u32_in(before, unit.len() as int, unit + with_lengths(rest));
        assert(data =~= before + head + (unit + with_lengths(rest)));
        assert forall|j: int| 0 <= j < rest.len() implies (#[trigger] rest[j]).len() <= u32::MAX by {
            assert(units[j + 1].len() <= u32::MAX);
        }
        lemma_split(next, rest);
        assert(data.subrange(i + 4, i + 4 + unit.len()) =~= unit);
        assert(seq![unit] + rest =~= units);
    }
}

/// Units that are written with their lengths before them are found again, all
/// and in their order.
pub proof fn law_units_are_split(units: Seq<Seq<u8>>)
    requires
        forall|i: int| 0 <= i < units.len() ==> (#[trigger] units[i]).len() <= u32::MAX,
    ensures
        nalus_from(with_lengths(units), 0) == units,
{
    lemma_split(Seq::empty(), units);
    assert(Seq::<u8>::empty() + with_lengths(units) =~= with_lengths(units));
}

/// A record that is made of a sequence parameter set and a picture parameter
/// set behind a tag header of five bytes holds both, each once and behind its
/// length, and gives the sequence parameter set back.
pub proof fn law_avc_record_holds_parameter_sets(header: Seq<u8>, sps: Seq<u8>, pps: Seq<u8>)
    requires
        header.len() == 5,
        header[0] != 1,
        0 < sps.len() < 0x1_0000,
        0 < pps.len() < 0x1_0000,
        sps[0] % 32 == 7,
        pps[0] % 32 == 8,
    ensures
        ({
            let r = avcc_record(header + with_lengths(seq![sps, pps]));
            let n = sps.len() as int;
            &&& r.len() == 8 + n + 3 + pps.len()
            &&& r[0] == 1
            &&& r[4] == 0xff
            &&& r[5] == 0xe1
            &&& u16_at(r, 6) == n
            &&& r.subrange(8, 8 + n) == sps
            &&& r[8 + n] == 1
            &&& u16_at(r, 9 + n) == pps.len()
            &&& r.skip(11 + n) == pps
            &&& first_sps(CodecId::H264, r) == Some(sps)
        }),
{
    broadcast use group_be_len;

    let units = seq![sps, pps];
    let inner = with_lengths(units);
    let data = header + inner;
    assert forall|i: int| 0 <= i < units.len() implies (#[trigger] units[i]).len() <= u32::MAX by {}
    law_units_are_split(units);
    assert(data.skip(5) =~= inner);
    assert(data[0] == header[0]);
    assert(inner.len() > 0) by {
        assert(inner == crate::bytes::be32(sps.len() as int) + units[0] + with_lengths(
            units.skip(1),
        ));
    }
    lemma_pair(sps, pps, false, 7);
    lemma_pair(sps, pps, false, 8);
    lemma_be16(sps.len() as int);
    lemma_be16(pps.len() as int);
    let r = avcc_record(data);
    let n = sps.len() as int;
    let front = seq![1, inner[0], 0, crate::mp4::records::max_u8(inner[1], inner[2]), 0xff, 0xe1u8];
    let a = be16(n);
    let b = be16(pps.len() as int);
    assert(r =~= front + (a + sps) + seq![1u8] + (b + pps));
    assert(r[6] == a[0] && r[7] == a[1]);
    assert(r.subrange(8, 8 + n) =~= sps);
    assert(r[9 + n] == b[0] && r[10 + n] == b[1]);
    assert(r.skip(11 + n) =~= pps);
}

proof fn lemma_pair(a: Seq<u8>, b: Seq<u8>, hevc: bool, t: int)
    ensures
        count_units(seq![a, b], hevc, t, 2) == (if nal_type(a, hevc) == t {
            1int
        } else {
            0
        }) + (if nal_type(b, hevc) == t {
            1int
        } else {
            0
        }),
        unit_bytes(seq![a, b], hevc, t, 2) == (if nal_type(a, hevc) == t {
            be16(a.len() as int % 0x1_0000) + a
        } else {
            Seq::empty()
        }) + (if nal_type(b, hevc) == t {
            be16(b.len() as int % 0x1_0000) + b
        } else {
            Seq::empty()
        }),
{
    broadcast use group_be_len;

    reveal_with_fuel(count_units, 3);
    reveal_with_fuel(unit_bytes, 3);
    let none = Seq::<u8>::empty();
    let first = if nal_type(a, hevc) == t {
        be16(a.len() as int % 0x1_0000) + a
    } else {
        none
    };
    let second = if nal_type(b, hevc) == t {
        be16(b.len() as int % 0x1_0000) + b
    } else {
        none
    };
    assert(unit_bytes(seq![a, b], hevc, t, 1) =~= first);
    assert(unit_bytes(seq![a, b], hevc, t, 2) =~= first + second);
}

/// How many units of a kind there are, and what is written of them: one more
/// for each unit of the kind, behind the others, and nothing for another one.
/// The kind of a unit is in the lower five bits of its first byte, for HEVC in
/// the six bits behind the highest.
pub proof fn law_units_are_counted(nals: Seq<Seq<u8>>, unit: Seq<u8>, hevc: bool, t: int)
    requires
        unit.len() > 0,
        unit.len() < 0x1_0000,
        0 <= t < 64,
    ensures
        ({
            let n = nals.len() as int;
            let all = nals.push(unit);
            let same = if hevc {
                unit[0] == t * 2 || unit[0] == t * 2 + 1
            } else {
                unit[0] == t || unit[0] == t + 32 || unit[0] == t + 64 || unit[0] == t + 96
                    || unit[0] == t + 128 || unit[0] == t + 160 || unit[0] == t + 192 || unit[0]
                    == t + 224
            };
            &&& hevc || t < 32 ==> count_units(all, hevc, t, n + 1) == count_units(nals, hevc, t, n)
                + (if same {
                1int
            } else {
                0
            })
            &&& hevc || t < 32 ==> unit_bytes(all, hevc, t, n + 1) == unit_bytes(nals, hevc, t, n)
                + (if same {
                be16(unit.len() as int) + unit
            } else {
                Seq::empty()
            })
        }),
{
    let n = nals.len() as int;
    let all = nals.push(unit);
    lemma_same_units(nals, all, hevc, t, n);
    assert(all[n] == unit);
    let before = unit_bytes(nals, hevc, t, n);
    assert(before + be16(unit.len() as int) + unit =~= before + (be16(unit.len() as int) + unit));
    assert(before + Seq::<u8>::empty() =~= before);
}

proof fn lemma_same_units(a: Seq<Seq<u8>>, b: Seq<Seq<u8>>, hevc: bool, t: int, n: int)
    requires
        0 <= n <= a.len(),
        n <= b.len(),
        forall|i: int| 0 <= i < n ==> a[i] == #[trigger] b[i],
    ensures
        count_units(a, hevc, t, n) == count_units(b, hevc, t, n),
        unit_bytes(a, hevc, t, n) == unit_bytes(b, hevc, t, n),
    decreases n,
{
    if n > 0 {
        lemma_same_units(a, b, hevc, t, n - 1);
        assert(a[n - 1] == b[n - 1]);
    }
}

/// A record that is made of HEVC parameter sets counts and holds those of each
/// kind, the video ones first, then those of sequences and of pictures.
pub proof fn law_hevc_record_holds_parameter_sets(
    header: Seq<u8>,
    units: Seq<Seq<u8>>,
)
    requires
        header.len() == 5,
        header[0] != 1,
        units.len() > 0,
        forall|i: int|
            0 <= i < units.len() ==> 0 < (#[trigger] units[i]).len() <= u32::MAX,
        count_units(units, true, 16, units.len() as int) < 16,
        count_units(units, true, 17, units.len() as int) < 16,
        count_units(units, true, 18, units.len() as int) < 64,
    ensures
        ({
            let r = hvcc_record(header + with_lengths(units));
            let n = units.len() as int;
            &&& r[0] == 1
            &&& r[8] == count_units(units, true, 16, n)
            &&& r[9] == count_units(units, true, 17, n)
            &&& r[10] == count_units(units, true, 18, n)
            &&& r.skip(11) == unit_bytes(units, true, 16, n) + unit_bytes(units, true, 17, n)
                + unit_bytes(units, true, 18, n)
        }),
{
    broadcast use group_be_len;

    let inner = with_lengths(units);
    let data = header + inner;
    law_units_are_split(units);
    assert(data.skip(5) =~= inner);
    assert(data[0] == header[0]);
    assert(inner.len() > 0) by {
        assert(inner == crate::bytes::be32(units[0].len() as int) + units[0] + with_lengths(
            units.skip(1),
        ));
    }
    let n = units.len() as int;
    lemma_count(units, 16, n);
    lemma_count(units, 17, n);
    lemma_count(units, 18, n);
    let r = hvcc_record(data);
    assert(r.skip(11) =~= unit_bytes(units, true, 16, n) + unit_bytes(units, true, 17, n)
        + unit_bytes(units, true, 18, n));
}

proof fn lemma_count(units: Seq<Seq<u8>>, t: int, n: int)
    requires
        0 <= n <= units.len(),
    ensures
        0 <= count_units(units, true, t, n),
    decreases n,
{
    if n > 0 {
        lemma_count(units, t, n - 1);
    }
}

/// What already is a record is taken as it is.
pub proof fn law_record_is_taken(record: Seq<u8>)
    requires
        record.len() >= 23,
        record[0] == 1,
    ensures
        avcc_record(record) == record,
        hvcc_record(record) == record,
{
}

/// The picture size of a configuration stands in its first sequence parameter
/// set: two bytes for the width and two for the height, behind three bytes of
/// an H.264 one and four bytes of an H.265 one.
pub proof fn law_size_is_read_from_parameter_set(
    header: Seq<u8>,
    before: Seq<u8>,
    width: int,
    height: int,
    rest: Seq<u8>,
    hevc: bool,
)
    requires
        header.len() == 5,
        0 <= width < 0x1_0000,
        0 <= height < 0x1_0000,
        before.len() == if hevc {
            4int
        } else {
            3
        },
        hevc ==> before[0] == 34 || before[0] == 35,
        !hevc ==> before[0] % 32 == 7,
        rest.len() < 0x1_0000,
    ensures
        ({
            let unit = before + seq![
                (width / 256) as u8,
                (width % 256) as u8,
                (height / 256) as u8,
                (height % 256) as u8,
            ] + rest;
            video_info(
                if hevc {
                    CodecId::H265
                } else {
                    CodecId::H264
                },
                header + with_lengths(seq![unit]),
            ) == Some((width as u32, height as u32, 30u32))
        }),
{
    broadcast use group_be_len;

    let unit = before + seq![
        (width / 256) as u8,
        (width % 256) as u8,
        (height / 256) as u8,
        (height % 256) as u8,
    ] + rest;
    let units = seq![unit];
    assert forall|i: int| 0 <= i < units.len() implies (#[trigger] units[i]).len() <= u32::MAX by {}
    law_units_are_split(units);
    let inner = with_lengths(units);
    assert((header + inner).skip(5) =~= inner);
    assert(inner.len() > 0) by {
        assert(inner == crate::bytes::be32(unit.len() as int) + units[0] + with_lengths(
            units.skip(1),
        ));
    }
    assert(unit[0] == before[0]);
    assert(units[0] == unit);
}

/// A configuration that names no frequency, or is too short to, stands for
/// 44.1 kHz.
pub proof fn law_unnamed_frequency(config: Seq<u8>, object_type: int, index: int, rest: int)
    requires
        0 <= object_type < 32,
        0 <= rest < 128,
        config.len() < 2 || (13 <= index < 16 && config[0] * 256 + config[1] == object_type * 2048
            + index * 128 + rest),
    ensures
        config_rate(config) == 44100,
{
    if config.len() >= 2 {
        assert(config[0] as int % 8 * 2 + config[1] as int / 0x80 == index);
    }
}

} // verus!
