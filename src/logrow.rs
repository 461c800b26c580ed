use vstd::prelude::*;
use crate::text::{fixed2, fixed2_at, parse_fixed2, push_char, push_fixed2};

verus! {

/// One durable record: the sample's timestamp text, its loads in hundredths of
/// a percent, and the summary of its busiest processes.
pub struct LogRow {
    pub timestamp: String,
    pub cpu_centi: u64,
    pub mem_centi: u64,
    pub disk_centi: u64,
    pub top5: String,
}

pub open spec fn has_no_comma(s: Seq<char>) -> bool {
    forall|i: int| 0 <= i < s.len() ==> #[trigger] s[i] != ','
}

/// The text of a record: comma-separated fields, loads with two decimals, and
/// the process summary as one quoted field.
pub open spec fn row_text(ts: Seq<char>, cpu: nat, mem: nat, disk: nat, top5: Seq<char>) -> Seq<
    char,
> {
    ts + seq![','] + fixed2(cpu) + seq![','] + fixed2(mem) + seq![','] + fixed2(disk) + seq![
        ',',
        '"',
    ] + top5 + seq!['"']
}

/// Where each field of a record's text stands.
pub proof fn lemma_row_layout(ts: Seq<char>, cpu: nat, mem: nat, disk: nat, top5: Seq<char>)
    ensures
        ({
            let line = row_text(ts, cpu, mem, disk, top5);
            let e1: int = ts.len() as int + 1 + fixed2(cpu).len();
            let e2: int = e1 + 1 + fixed2(mem).len();
            let e3: int = e2 + 1 + fixed2(disk).len();
            &&& line[ts.len() as int] == ','
            &&& line.subrange(0, ts.len() as int) == ts
            &&& fixed2_at(line, ts.len() as int + 1, cpu)
            &&& line[e1] == ','
            &&& fixed2_at(line, e1 + 1, mem)
            &&& line[e2] == ','
            &&& fixed2_at(line, e2 + 1, disk)
            &&& line[e3] == ','
            &&& line[e3 + 1] == '"'
            &&& line.len() == e3 + 3 + top5.len()
            &&& line[line.len() - 1] == '"'
            &&& line.subrange(e3 + 2, line.len() - 1) == top5
            &&& forall|i: int| 0 <= i < ts.len() ==> line[i] == #[trigger] ts[i]
        }),
{
    let line = row_text(ts, cpu, mem, disk, top5);
    let e1: int = ts.len() as int + 1 + fixed2(cpu).len();
    let e2: int = e1 + 1 + fixed2(mem).len();
    let e3: int = e2 + 1 + fixed2(disk).len();
    assert(line.subrange(0, ts.len() as int) =~= ts);
    assert(line.subrange(ts.len() as int + 1, e1) =~= fixed2(cpu));
    assert(line.subrange(e1 + 1, e2) =~= fixed2(mem));
    assert(line.subrange(e2 + 1, e3) =~= fixed2(disk));
    assert(line.subrange(e3 + 2, line.len() - 1) =~= top5);
}

impl LogRow {
    pub open spec fn text(&self) -> Seq<char> {
        row_text(
            self.timestamp@,
            self.cpu_centi as nat,
            self.mem_centi as nat,
            self.disk_centi as nat,
            self.top5@,
        )
    }

    /// The record as one line of the log, without the line break.
    pub fn format(&self) -> (r: String)
        ensures
            r@ == self.text(),
    {
        let mut s = self.timestamp.clone();
        push_char(&mut s, ',');
        push_fixed2(&mut s, self.cpu_centi);
        push_char(&mut s, ',');
        push_fixed2(&mut s, self.mem_centi);
        push_char(&mut s, ',');
        push_fixed2(&mut s, self.disk_centi);
        push_char(&mut s, ',');
        push_char(&mut s, '"');
        s.append(self.top5.as_str());
        push_char(&mut s, '"');
        assert(s@ =~= self.text());
        s
    }
}

/// Reads a line of the log back into a record. It succeeds exactly on the
/// lines that some record with a comma-free timestamp formats to, and then
/// gives back that record's fields.
pub fn parse_row(line: &str) -> (r: Option<LogRow>)
    ensures
        r matches Some(row) ==> has_no_comma(row.timestamp@) && line@ == row.text(),
        forall|ts: Seq<char>, cpu: u64, mem: u64, disk: u64, top5: Seq<char>|
            has_no_comma(ts) && line@ == #[trigger] row_text(
                ts,
                cpu as nat,
                mem as nat,
                disk as nat,
                top5,
            ) ==> (r matches Some(row) && row.timestamp@ == ts && row.cpu_centi == cpu
                && row.mem_centi == mem && row.disk_centi == disk && row.top5@ == top5),
{
    let len = line.unicode_len();
    let mut p: usize = 0;
    while p < len
        invariant
            len == line@.len(),
            p <= len,
            has_no_comma(line@.subrange(0, p as int)),
        ensures
            p <= len,
            has_no_comma(line@.subrange(0, p as int)),
            p < len ==> line@[p as int] == ',',
        decreases len - p,
    {
        if line.get_char(p) == ',' {
            break;
        }
        p = p + 1;
        assert(has_no_comma(line@.subrange(0, p as int))) by {
            assert forall|i: int| 0 <= i < p implies #[trigger] line@.subrange(0, p as int)[i]
                != ',' by {
                if i < p - 1 {
                    assert(line@.subrange(0, p as int)[i] == line@.subrange(0, p - 1)[i]);
                }
            }
        }
    }
    proof {
        assert forall|ts: Seq<char>, cpu: u64, mem: u64, disk: u64, top5: Seq<char>|
            has_no_comma(ts) && line@ == #[trigger] row_text(
                ts,
                cpu as nat,
                mem as nat,
                disk as nat,
                top5,
            ) implies p == ts.len() by {
            lemma_row_layout(ts, cpu as nat, mem as nat, disk as nat, top5);
            if p < ts.len() {
                assert(line@[p as int] == ts[p as int]);
            }
            if p > ts.len() {
                assert(line@.subrange(0, p as int)[ts.len() as int] == ',');
            }
        }
    }
    if p >= len {
        return None;
    }
    let ts = line.substring_char(0, p).to_owned();
    let (cpu_p, e1) = match parse_fixed2(line, p + 1) {
        Some(x) => x,
        None => {
            proof {
                assert forall|ts: Seq<char>, cpu: u64, mem: u64, disk: u64, top5: Seq<char>|
                    has_no_comma(ts) && line@ == #[trigger] row_text(
                        ts,
                        cpu as nat,
                        mem as nat,
                        disk as nat,
                        top5,
                    ) implies false by {
                    lemma_row_layout(ts, cpu as nat, mem as nat, disk as nat, top5);
                }
            }
            return None;
        },
    };
    proof {
        assert forall|ts: Seq<char>, cpu: u64, mem: u64, disk: u64, top5: Seq<char>|
            has_no_comma(ts) && line@ == #[trigger] row_text(
                ts,
                cpu as nat,
                mem as nat,
                disk as nat,
                top5,
            ) implies cpu_p == cpu && e1 == p + 1 + fixed2(cpu as nat).len() by {
            lemma_row_layout(ts, cpu as nat, mem as nat, disk as nat, top5);
        }
    }
    if e1 >= len || line.get_char(e1) != ',' {
        return None;
    }
    let (mem_p, e2) = match parse_fixed2(line, e1 + 1) {
        Some(x) => x,
        None => {
            proof {
                assert forall|ts: Seq<char>, cpu: u64, mem: u64, disk: u64, top5: Seq<char>|
                    has_no_comma(ts) && line@ == #[trigger] row_text(
                        ts,
                        cpu as nat,
                        mem as nat,
                        disk as nat,
                        top5,
                    ) implies false by {
                    lemma_row_layout(ts, cpu as nat, mem as nat, disk as nat, top5);
                }
            }
            return None;
        },
    };
    proof {
        assert forall|ts: Seq<char>, cpu: u64, mem: u64, disk: u64, top5: Seq<char>|
            has_no_comma(ts) && line@ == #[trigger] row_text(
                ts,
                cpu as nat,
                mem as nat,
                disk as nat,
                top5,
            ) implies mem_p == mem && e2 == e1 + 1 + fixed2(mem as nat).len() by {
            lemma_row_layout(ts, cpu as nat, mem as nat, disk as nat, top5);
        }
    }
    if e2 >= len || line.get_char(e2) != ',' {
        return None;
    }
    let (disk_p, e3) = match parse_fixed2(line, e2 + 1) {
        Some(x) => x,
        None => {
            proof {
                assert forall|ts: Seq<char>, cpu: u64, mem: u64, disk: u64, top5: Seq<char>|
                    has_no_comma(ts) && line@ == #[trigger] row_text(
                        ts,
                        cpu as nat,
                        mem as nat,
                        disk as nat,
                        top5,
                    ) implies false by {
                    lemma_row_layout(ts, cpu as nat, mem as nat, disk as nat, top5);
                }
            }
            return None;
        },
    };
    proof {
        assert forall|ts: Seq<char>, cpu: u64, mem: u64, disk: u64, top5: Seq<char>|
            has_no_comma(ts) && line@ == #[trigger] row_text(
                ts,
                cpu as nat,
                mem as nat,
                disk as nat,
                top5,
            ) implies disk_p == disk && e3 == e2 + 1 + fixed2(disk as nat).len() by {
            lemma_row_layout(ts, cpu as nat, mem as nat, disk as nat, top5);
        }
    }
    if len - e3 < 3 || line.get_char(e3) != ',' || line.get_char(e3 + 1) != '"' || line.get_char(
        len - 1,
    ) != '"' {
        return None;
    }
    let top5 = line.substring_char(e3 + 2, len - 1).to_owned();
    let row = LogRow {
        timestamp: ts,
        cpu_centi: cpu_p,
        mem_centi: mem_p,
        disk_centi: disk_p,
        top5,
    };
    proof {
        assert forall|ts: Seq<char>, cpu: u64, mem: u64, disk: u64, top5: Seq<char>|
            has_no_comma(ts) && line@ == #[trigger] row_text(
                ts,
                cpu as nat,
                mem as nat,
                disk as nat,
                top5,
            ) implies row.timestamp@ == ts && row.top5@ == top5 by {
            lemma_row_layout(ts, cpu as nat, mem as nat, disk as nat, top5);
        }
        assert(line@ =~= row.text());
    }
    Some(row)
}

} // verus!
