use vstd::prelude::*;
use crate::store::{Record, RecordStore};

verus! {

/// Width that names and quoted values are padded to.
pub const FIELD_WIDTH: usize = 16;

pub open spec fn spaces(n: nat) -> Seq<char> {
    Seq::new(n, |i: int| ' ')
}

/// `s` right-aligned in a field of `width` characters.
pub open spec fn align_right(s: Seq<char>, width: nat) -> Seq<char> {
    if s.len() < width {
        spaces((width - s.len()) as nat) + s
    } else {
        s
    }
}

/// `s` left-aligned in a field of `width` characters.
pub open spec fn align_left(s: Seq<char>, width: nat) -> Seq<char> {
    if s.len() < width {
        s + spaces((width - s.len()) as nat)
    } else {
        s
    }
}

pub open spec fn digit_char(d: nat) -> char {
    "0123456789"@[d as int]
}

/// Decimal notation of `n`, without leading zeros.
pub open spec fn decimal(n: nat) -> Seq<char>
    decreases n,
{
    if n < 10 {
        seq![digit_char(n)]
    } else {
        decimal(n / 10) + seq![digit_char(n % 10)]
    }
}

/// The SOA line that opens the zone.
pub open spec fn soa_line(nameserver: Seq<char>, domain: Seq<char>, serial: nat) -> Seq<char> {
    "@               3600 SOA "@ + align_right(nameserver, FIELD_WIDTH as nat) + ". zone-admin."@
        + domain + ". "@ + decimal(serial) + " 3600 600 604800 1800\n"@
}

/// The TXT line of one record; the content is quoted as it stands.
pub open spec fn txt_line(subdomain: Seq<char>, txt: Seq<char>) -> Seq<char> {
    align_left(subdomain, FIELD_WIDTH as nat) + " 60 IN TXT "@ + align_right(
        "\""@ + txt + "\""@,
        FIELD_WIDTH as nat,
    ) + "\n"@
}

/// The TXT lines of the records, in the order given.
pub open spec fn txt_lines(records: Seq<(Seq<char>, Seq<char>)>) -> Seq<char>
    decreases records.len(),
{
    if records.len() == 0 {
        Seq::empty()
    } else {
        txt_lines(records.drop_last()) + txt_line(records.last().0, records.last().1)
    }
}

pub open spec fn zone_text(
    nameserver: Seq<char>,
    domain: Seq<char>,
    serial: nat,
    records: Seq<(Seq<char>, Seq<char>)>,
) -> Seq<char> {
    soa_line(nameserver, domain, serial) + txt_lines(records)
}

pub open spec fn record_pairs(records: Seq<&Record>) -> Seq<(Seq<char>, Seq<char>)> {
    records.map_values(|r: &Record| (r.subdomain@, r.txt@))
}

fn push_spaces(out: &mut String, n: usize)
    ensures
        final(out)@ == old(out)@ + spaces(n as nat),
{
    let ghost start = out@;
    let mut i: usize = 0;
    while i < n
        invariant
            i <= n,
            out@ == start + spaces(i as nat),
        decreases n - i,
    {
        out.append(" ");
        proof {
            reveal_strlit(" ");
        }
        assert(start + spaces((i + 1) as nat) =~= start + spaces(i as nat) + " "@);
        i = i + 1;
    }
}

fn push_right(out: &mut String, s: &str)
    ensures
        final(out)@ == old(out)@ + align_right(s@, FIELD_WIDTH as nat),
{
    let len = s.unicode_len();
    if len < FIELD_WIDTH {
        push_spaces(out, FIELD_WIDTH - len);
    }
    out.append(s);
    assert(out@ =~= old(out)@ + align_right(s@, FIELD_WIDTH as nat));
}

fn push_left(out: &mut String, s: &str)
    ensures
        final(out)@ == old(out)@ + align_left(s@, FIELD_WIDTH as nat),
{
    let len = s.unicode_len();
    out.append(s);
    if len < FIELD_WIDTH {
        push_spaces(out, FIELD_WIDTH - len);
    }
    assert(out@ =~= old(out)@ + align_left(s@, FIELD_WIDTH as nat));
}

fn push_decimal(out: &mut String, n: u64)
    ensures
        final(out)@ == old(out)@ + decimal(n as nat),
    decreases n,
{
    proof {
        reveal_strlit("0123456789");
    }
    let digits = "0123456789";
    if n >= 10 {
        push_decimal(out, n / 10);
    }
    let d = (n % 10) as usize;
    let c = digits.substring_char(d, d + 1);
    assert(c@ =~= seq![digit_char(d as nat)]);
    out.append(c);
    assert(out@ =~= old(out)@ + decimal(n as nat));
}

/// Renders the zone: the SOA line with `serial`, then one TXT line per record.
pub fn render_zone(nameserver: &str, domain: &str, serial: u32, records: &Vec<&Record>) -> (r: String)
    ensures
        r@ == zone_text(nameserver@, domain@, serial as nat, record_pairs(records@)),
{
    let mut out = String::new();
    out.append("@               3600 SOA ");
    push_right(&mut out, nameserver);
    out.append(". zone-admin.");
    out.append(domain);
    out.append(". ");
    push_decimal(&mut out, serial as u64);
    out.append(" 3600 600 604800 1800\n");
    assert(out@ =~= soa_line(nameserver@, domain@, serial as nat));
    let ghost head = out@;
    let mut i: usize = 0;
    while i < records.len()
        invariant
            i <= records@.len(),
            out@ == head + txt_lines(record_pairs(records@).take(i as int)),
        decreases records@.len() - i,
    {
        let rec: &Record = records[i];
        let ghost before = out@;
        push_left(&mut out, rec.subdomain.as_str());
        out.append(" 60 IN TXT ");
        let mut quoted = String::new();
        quoted.append("\"");
        quoted.append(rec.txt.as_str());
        quoted.append("\"");
        push_right(&mut out, quoted.as_str());
        out.append("\n");
        proof {
            let ps = record_pairs(records@);
            assert(ps.take(i + 1).drop_last() =~= ps.take(i as int));
            assert(ps.take(i + 1).last() == ps[i as int]);
            assert(out@ =~= before + txt_line(rec.subdomain@, rec.txt@));
        }
        i = i + 1;
    }
    assert(record_pairs(records@).take(records@.len() as int) =~= record_pairs(records@));
    out
}

/// Builds the zone text for each regeneration pass and numbers the passes.
pub struct ZoneWriter {
    nameserver: String,
    domain: String,
    serial: u32,
}

impl ZoneWriter {
    pub closed spec fn spec_serial(&self) -> u32 {
        self.serial
    }

    pub closed spec fn spec_nameserver(&self) -> Seq<char> {
        self.nameserver@
    }

    pub closed spec fn spec_domain(&self) -> Seq<char> {
        self.domain@
    }

    /// A writer whose first pass carries serial 0.
    pub fn new(nameserver: String, domain: String) -> (r: ZoneWriter)
        ensures
            r.spec_serial() == 0,
            r.spec_nameserver() == nameserver@,
            r.spec_domain() == domain@,
    {
        ZoneWriter { nameserver, domain, serial: 0 }
    }

    pub fn serial(&self) -> (r: u32)
        ensures
            r == self.spec_serial(),
    {
        self.serial
    }

    /// The zone text of the store as it stands, under the current serial;
    /// the serial then moves on by one, wrapping as zone serials do.
    pub fn next_zone(&mut self, store: &RecordStore) -> (r: String)
        requires
            store.wf(),
        ensures
            r@ == zone_text(
                old(self).spec_nameserver(),
                old(self).spec_domain(),
                old(self).spec_serial() as nat,
                store.listing(),
            ),
            final(self).spec_serial() == old(self).spec_serial().wrapping_add(1),
            final(self).spec_nameserver() == old(self).spec_nameserver(),
            final(self).spec_domain() == old(self).spec_domain(),
    {
        let entries = store.entries();
        let text = render_zone(self.nameserver.as_str(), self.domain.as_str(), self.serial, &entries);
        self.serial = self.serial.wrapping_add(1);
        text
    }
}

} // verus!
