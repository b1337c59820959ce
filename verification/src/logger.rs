//! An in-memory log: timestamped entries, of which the last 1000 are kept.
use vstd::prelude::*;
use vstd::string::StringExecFns;
use crate::ids::{decimal, push_decimal};

verus! {

/// One log entry.
#[derive(Debug, Clone)]
pub struct LogEntry {
    pub timestamp: String,
    pub level: String,
    pub message: String,
    pub module: Option<String>,
    /// Where the entry comes from; "🦀" for entries of this library.
    pub source: String,
}

/// Mathematical model of a log entry.
pub struct SpecLogEntry {
    pub timestamp: Seq<char>,
    pub level: Seq<char>,
    pub message: Seq<char>,
    pub module: Option<Seq<char>>,
    pub source: Seq<char>,
}

impl View for LogEntry {
    type V = SpecLogEntry;

    open spec fn view(&self) -> SpecLogEntry {
        SpecLogEntry {
            timestamp: self.timestamp@,
            level: self.level@,
            message: self.message@,
            module: match self.module {
                Some(m) => Some(m@),
                None => None,
            },
            source: self.source@,
        }
    }
}

impl LogEntry {
    /// A copy with the same contents.
    pub fn duplicate(&self) -> (r: Self)
        ensures
            r@ == self@,
    {
        LogEntry {
            timestamp: self.timestamp.clone(),
            level: self.level.clone(),
            message: self.message.clone(),
            module: match &self.module {
                Some(m) => Some(m.clone()),
                None => None,
            },
            source: self.source.clone(),
        }
    }
}

/// How many entries the log keeps.
pub open spec fn log_capacity() -> nat {
    1000
}

/// The source recorded in entries of this library.
pub open spec fn crab_source() -> Seq<char> {
    "🦀"@
}

/// The log after appending `e` to `entries`: the last 1000 entries.
pub open spec fn appended(entries: Seq<SpecLogEntry>, e: SpecLogEntry) -> Seq<SpecLogEntry> {
    let all = entries.push(e);
    if all.len() > log_capacity() {
        all.subrange(all.len() - log_capacity(), all.len() as int)
    } else {
        all
    }
}

/// The entry recorded for a message.
pub open spec fn spec_entry(timestamp: Seq<char>, level: Seq<char>, message: Seq<char>, module: Option<Seq<char>>) -> SpecLogEntry {
    SpecLogEntry { timestamp, level, message, module, source: crab_source() }
}

/// The entries of the log, oldest first; never more than 1000.
pub struct LogStore {
    entries: Vec<LogEntry>,
}

impl View for LogStore {
    type V = Seq<SpecLogEntry>;

    closed spec fn view(&self) -> Seq<SpecLogEntry> {
        Seq::new(self.entries@.len(), |n: int| self.entries@[n]@)
    }
}

impl LogStore {
    #[verifier::type_invariant]
    spec fn inv(&self) -> bool {
        self.entries@.len() <= log_capacity()
    }

    /// An empty log.
    pub fn new() -> (r: Self)
        ensures
            r@ == Seq::<SpecLogEntry>::empty(),
    {
        let r = LogStore { entries: Vec::new() };
        assert(r@ =~= Seq::<SpecLogEntry>::empty());
        r
    }
}

/// Appending to a log of at most 1000 entries leaves at most 1000 entries, the
/// newest entry last, and the entries before it in their order: the log is the
/// last up to 1000 of all entries ever appended.
pub proof fn law_append_keeps_last(entries: Seq<SpecLogEntry>, e: SpecLogEntry)
    requires
        entries.len() <= log_capacity(),
    ensures
        appended(entries, e).len() <= log_capacity(),
        appended(entries, e).len() >= 1,
        appended(entries, e).last() == e,
        entries.len() < log_capacity() ==> appended(entries, e) == entries.push(e),
        entries.len() == log_capacity() ==> appended(entries, e) == entries.drop_first().push(e),
{
    if entries.len() == log_capacity() {
        assert(appended(entries, e) =~= entries.drop_first().push(e));
    }
}

/// A copy of all entries, oldest first.
pub fn get_logs(store: &LogStore) -> (r: Vec<LogEntry>)
    ensures
        Seq::new(r@.len(), |n: int| r@[n]@) == store@,
        r@.len() <= log_capacity(),
{
    proof {
        use_type_invariant(store);
    }
    let mut out: Vec<LogEntry> = Vec::new();
    let mut k: usize = 0;
    while k < store.entries.len()
        invariant
            k <= store.entries@.len(),
            out@.len() == k,
            forall|u: int| 0 <= u < k ==> (#[trigger] out@[u])@ == store.entries@[u]@,
        decreases store.entries@.len() - k,
    {
        out.push(store.entries[k].duplicate());
        k = k + 1;
    }
    assert(Seq::new(out@.len(), |n: int| out@[n]@) =~= store@);
    out
}

/// Removes all entries.
pub fn clear_logs(store: &mut LogStore)
    ensures
        final(store)@ == Seq::<SpecLogEntry>::empty(),
{
    store.entries = Vec::new();
    assert(store@ =~= Seq::<SpecLogEntry>::empty());
}

/// Appends an entry with the given timestamp (the caller reads the clock),
/// dropping the oldest entries beyond 1000.
pub fn log_entry(store: &mut LogStore, timestamp: String, level: &str, message: &str, module: Option<String>)
    ensures
        final(store)@ == appended(
            old(store)@,
            spec_entry(timestamp@, level@, message@, match module { Some(m) => Some(m@), None => None }),
        ),
{
    proof {
        use_type_invariant(&*store);
    }
    let entry = LogEntry {
        timestamp,
        level: level.to_string(),
        message: message.to_string(),
        module,
        source: "🦀".to_string(),
    };
    let ghost old_view = store@;
    let mut entries = Vec::new();
    std::mem::swap(&mut entries, &mut store.entries);
    entries.push(entry);
    let ghost all = Seq::new(entries@.len(), |n: int| entries@[n]@);
    assert(all =~= old_view.push(entry@));
    if entries.len() > 1000 {
        let drop = entries.len() - 1000;
        let mut kept: Vec<LogEntry> = Vec::new();
        let mut k = drop;
        while k < entries.len()
            invariant
                drop <= k <= entries@.len(),
                entries@.len() == drop + 1000,
                kept@.len() == k - drop,
                forall|u: int| 0 <= u < kept@.len() ==> (#[trigger] kept@[u])@ == entries@[u + drop]@,
            decreases entries@.len() - k,
        {
            kept.push(entries[k].duplicate());
            k = k + 1;
        }
        store.entries = kept;
        assert(store@ =~= all.subrange(all.len() - 1000, all.len() as int));
    } else {
        store.entries = entries;
        assert(store@ =~= all);
    }
}

/// The line of an entry in an exported log:
/// "[timestamp] LEVEL [module] message", the module part only when present.
pub open spec fn export_line(e: SpecLogEntry) -> Seq<char> {
    let module_part = match e.module {
        Some(m) => " ["@ + m + "]"@,
        None => Seq::empty(),
    };
    "["@ + e.timestamp + "] "@ + e.level + module_part + " "@ + e.message + "\n"@
}

/// The lines of the first `n` entries.
pub open spec fn export_lines(entries: Seq<SpecLogEntry>, n: nat) -> Seq<char>
    decreases n,
{
    if n == 0 {
        Seq::empty()
    } else {
        export_lines(entries, (n - 1) as nat) + export_line(entries[n - 1])
    }
}

/// The text of an exported log: a header with the export time and the
/// number of entries, then one line per entry, oldest first.
pub open spec fn export_text(entries: Seq<SpecLogEntry>, exported_at: Seq<char>) -> Seq<char> {
    "Mehu PLOT3D Viewer - Log Export\n"@ + "================================\n"@ + "Exported: "@ + exported_at + "\n"@
        + "Total entries: "@ + decimal(entries.len()) + "\n"@ + "================================\n\n"@
        + export_lines(entries, entries.len())
}

/// The text of the log exported at the given time.
pub fn format_log_export(store: &LogStore, exported_at: &str) -> (r: String)
    ensures
        r@ == export_text(store@, exported_at@),
{
    proof {
        use_type_invariant(store);
    }
    let mut s = String::new();
    s.append("Mehu PLOT3D Viewer - Log Export\n");
    s.append("================================\n");
    s.append("Exported: ");
    s.append(exported_at);
    s.append("\n");
    s.append("Total entries: ");
    push_decimal(&mut s, store.entries.len() as u128);
    s.append("\n");
    s.append("================================\n\n");
    let ghost head = s@;
    assert(head =~= "Mehu PLOT3D Viewer - Log Export\n"@ + "================================\n"@ + "Exported: "@ + exported_at@ + "\n"@
        + "Total entries: "@ + decimal(store@.len()) + "\n"@ + "================================\n\n"@);
    let mut k: usize = 0;
    while k < store.entries.len()
        invariant
            k <= store.entries@.len(),
            store@.len() == store.entries@.len(),
            forall|u: int| 0 <= u < store.entries@.len() ==> #[trigger] store@[u] == store.entries@[u]@,
            s@ == head + export_lines(store@, k as nat),
        decreases store.entries@.len() - k,
    {
        let e = &store.entries[k];
        s.append("[");
        s.append(e.timestamp.as_str());
        s.append("] ");
        s.append(e.level.as_str());
        match &e.module {
            Some(m) => {
                s.append(" [");
                s.append(m.as_str());
                s.append("]");
            },
            None => {},
        }
        s.append(" ");
        s.append(e.message.as_str());
        s.append("\n");
        proof {
            assert(store@[k as int] == e@);
            let ghost mp: Seq<char> = match &e.module { Some(m) => " ["@ + m@ + "]"@, None => Seq::empty() };
            assert(export_line(e@) =~= "["@ + e.timestamp@ + "] "@ + e.level@ + mp + " "@ + e.message@ + "\n"@);
            assert(s@ =~= head + export_lines(store@, k as nat) + export_line(store@[k as int]));
        }
        k = k + 1;
    }
    s
}

/// Logs an informational message.
pub fn log_info(store: &mut LogStore, timestamp: String, message: &str)
    ensures
        final(store)@ == appended(old(store)@, spec_entry(timestamp@, "INFO"@, message@, None)),
{
    log_entry(store, timestamp, "INFO", message, None);
}

/// Logs a warning.
pub fn log_warn(store: &mut LogStore, timestamp: String, message: &str)
    ensures
        final(store)@ == appended(old(store)@, spec_entry(timestamp@, "WARN"@, message@, None)),
{
    log_entry(store, timestamp, "WARN", message, None);
}

/// Logs an error.
pub fn log_error(store: &mut LogStore, timestamp: String, message: &str)
    ensures
        final(store)@ == appended(old(store)@, spec_entry(timestamp@, "ERROR"@, message@, None)),
{
    log_entry(store, timestamp, "ERROR", message, None);
}

/// Logs a debugging message.
pub fn log_debug(store: &mut LogStore, timestamp: String, message: &str)
    ensures
        final(store)@ == appended(old(store)@, spec_entry(timestamp@, "DEBUG"@, message@, None)),
{
    log_entry(store, timestamp, "DEBUG", message, None);
}

} // verus!
