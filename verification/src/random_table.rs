use vstd::prelude::*;

verus! {

/// One entry of a content table: a label, its weight, and the dungeon
/// depth from which on the label can be rolled.
pub struct RandomEntry {
    pub name: String,
    pub weight: i32,
    pub min_depth: i32,
}

/// A weighted table of labels, in the order in which they were added.
pub struct RandomTable {
    pub entries: Vec<RandomEntry>,
}

/// The mathematical value of an entry.
pub struct TableLine {
    pub name: Seq<char>,
    pub weight: int,
    pub min_depth: int,
}

impl TableLine {
    /// The weight with which the line takes part in a roll at `depth`: its
    /// weight from its minimum depth on, nothing above that depth.
    pub open spec fn effective_weight(self, depth: int) -> int {
        if depth >= self.min_depth && self.weight > 0 {
            self.weight
        } else {
            0
        }
    }
}

impl View for RandomEntry {
    type V = TableLine;

    open spec fn view(&self) -> TableLine {
        TableLine {
            name: self.name@,
            weight: self.weight as int,
            min_depth: self.min_depth as int,
        }
    }
}

impl View for RandomTable {
    type V = Seq<TableLine>;

    open spec fn view(&self) -> Seq<TableLine> {
        Seq::new(self.entries@.len(), |i: int| self.entries@[i]@)
    }
}

/// Sum of the effective weights of the first `n` lines.
pub open spec fn weight_before(lines: Seq<TableLine>, depth: int, n: int) -> int
    decreases n,
{
    if n <= 0 {
        0
    } else {
        weight_before(lines, depth, n - 1) + lines[n - 1].effective_weight(depth)
    }
}

/// Total effective weight of a table at `depth`.
pub open spec fn total_weight(lines: Seq<TableLine>, depth: int) -> int {
    weight_before(lines, depth, lines.len() as int)
}

/// The line at `index` is the one whose share of the total weight holds
/// `draw`: the weights before it add up to at most `draw`, and together
/// with its own to more.
pub open spec fn holds_draw(lines: Seq<TableLine>, depth: int, draw: int, index: int) -> bool {
    &&& 0 <= index < lines.len()
    &&& weight_before(lines, depth, index) <= draw
    &&& draw < weight_before(lines, depth, index) + lines[index].effective_weight(depth)
}

/// The table after a label was added to it: a weight of zero or less adds
/// nothing.
pub open spec fn with_line(lines: Seq<TableLine>, name: Seq<char>, weight: int, min_depth: int)
    -> Seq<TableLine> {
    if weight > 0 {
        lines.push(TableLine { name, weight, min_depth })
    } else {
        lines
    }
}

/// The weight summed over more lines is no smaller.
pub proof fn lemma_weight_before_monotone(lines: Seq<TableLine>, depth: int, i: int, j: int)
    requires
        0 <= i <= j,
    ensures
        0 <= weight_before(lines, depth, i) <= weight_before(lines, depth, j),
    decreases j,
{
    if j > 0 {
        if i < j {
            lemma_weight_before_monotone(lines, depth, i, j - 1);
        } else {
            lemma_weight_before_monotone(lines, depth, i - 1, j - 1);
        }
    }
}

/// The weight of the first lines of a table does not depend on what
/// follows them.
pub proof fn lemma_weight_before_prefix(a: Seq<TableLine>, b: Seq<TableLine>, depth: int, n: int)
    requires
        0 <= n <= a.len(),
        n <= b.len(),
        forall|i: int| 0 <= i < n ==> a[i] == b[i],
    ensures
        weight_before(a, depth, n) == weight_before(b, depth, n),
    decreases n,
{
    if n > 0 {
        lemma_weight_before_prefix(a, b, depth, n - 1);
    }
}

/// Adding a label raises the total weight by the label's effective weight.
pub proof fn lemma_total_with_line(
    lines: Seq<TableLine>,
    name: Seq<char>,
    weight: int,
    min_depth: int,
    depth: int,
)
    ensures
        total_weight(with_line(lines, name, weight, min_depth), depth) == total_weight(
            lines,
            depth,
        ) + (TableLine { name, weight, min_depth }).effective_weight(depth),
{
    if weight > 0 {
        let longer = with_line(lines, name, weight, min_depth);
        lemma_weight_before_prefix(longer, lines, depth, lines.len() as int);
    }
}

/// A line that holds a draw has a positive effective weight.
pub proof fn lemma_drawn_line_has_weight(lines: Seq<TableLine>, depth: int, draw: int, i: int)
    requires
        holds_draw(lines, depth, draw, i),
    ensures
        lines[i].effective_weight(depth) > 0,
{
}

impl RandomEntry {
    /// The weight with which the entry takes part in a roll at `depth`.
    pub fn weight_at(&self, depth: i32) -> (w: i32)
        ensures
            w == self@.effective_weight(depth as int),
    {
        if depth >= self.min_depth && self.weight > 0 {
            self.weight
        } else {
            0
        }
    }
}

impl RandomTable {
    pub fn new() -> (table: RandomTable)
        ensures
            table@ == Seq::<TableLine>::empty(),
    {
        let table = RandomTable { entries: Vec::new() };
        assert(table@ =~= Seq::<TableLine>::empty());
        table
    }

    /// Adds a label that can be rolled at every depth. A weight of zero or
    /// less adds nothing.
    pub fn add(self, name: &str, weight: i32) -> (table: RandomTable)
        ensures
            table@ == with_line(self@, name@, weight as int, i32::MIN as int),
    {
        self.add_from_depth(name, weight, i32::MIN)
    }

    /// Adds a label that can be rolled from `min_depth` on. A weight of
    /// zero or less adds nothing.
    pub fn add_from_depth(self, name: &str, weight: i32, min_depth: i32) -> (table: RandomTable)
        ensures
            table@ == with_line(self@, name@, weight as int, min_depth as int),
    {
        let mut table = self;
        if weight > 0 {
            let ghost before = table@;
            table.entries.push(RandomEntry { name: name.to_owned(), weight, min_depth });
            assert(table@ =~= with_line(before, name@, weight as int, min_depth as int));
        }
        table
    }

    /// Total effective weight at `depth`, or `i32::MAX` if it is more
    /// than that.
    pub fn total_weight(&self, depth: i32) -> (total: i32)
        ensures
            total == if total_weight(self@, depth as int) <= i32::MAX {
                total_weight(self@, depth as int)
            } else {
                i32::MAX as int
            },
    {
        let mut sum: i64 = 0;
        let mut i: usize = 0;
        while i < self.entries.len()
            invariant
                i <= self.entries@.len(),
                0 <= sum <= i32::MAX,
                sum == if weight_before(self@, depth as int, i as int) <= i32::MAX {
                    weight_before(self@, depth as int, i as int)
                } else {
                    i32::MAX as int
                },
            decreases self.entries@.len() - i,
        {
            proof {
                lemma_weight_before_monotone(self@, depth as int, i as int, i as int);
            }
            let w: i32 = self.entries[i].weight_at(depth);
            sum = sum + w as i64;
            if sum > i32::MAX as i64 {
                sum = i32::MAX as i64;
            }
            i += 1;
        }
        sum as i32
    }

    /// The index of the entry whose share of the total weight holds `draw`.
    pub fn pick(&self, depth: i32, draw: i32) -> (index: usize)
        requires
            0 <= draw < total_weight(self@, depth as int),
        ensures
            holds_draw(self@, depth as int, draw as int, index as int),
    {
        let n: usize = self.entries.len();
        let mut before: i64 = 0;
        let mut i: usize = 0;
        loop
            invariant
                n == self.entries@.len(),
                i < n,
                before == weight_before(self@, depth as int, i as int),
                0 <= before <= draw,
                draw < total_weight(self@, depth as int),
            decreases n - i,
        {
            let w: i32 = self.entries[i].weight_at(depth);
            if (draw as i64) < before + w as i64 {
                return i;
            }
            before = before + w as i64;
            assert(before == weight_before(self@, depth as int, i + 1));
            assert(i + 1 < n);
            i += 1;
        }
    }

    /// Rolls the table at `depth`: draws a number below the total weight
    /// and returns the label of the entry that holds it. An entry is drawn
    /// with a chance in proportion to its effective weight, so a label
    /// whose effective weight is zero never comes out.
    pub fn roll(&self, rng: &mut rltk::RandomNumberGenerator, depth: i32) -> (label: String)
        requires
            0 < total_weight(self@, depth as int) < i32::MAX,
        ensures
            exists|i: int|
                0 <= i < self@.len() && (#[trigger] self@[i]).effective_weight(depth as int) > 0
                    && label@ == self@[i].name,
    {
        let total: i32 = self.total_weight(depth);
        let draw: i32 = crate::dice::roll_die(rng, total) - 1;
        let index: usize = self.pick(depth, draw);
        let label = self.entries[index].name.clone();
        assert(self@[index as int].effective_weight(depth as int) > 0 && label@
            == self@[index as int].name);
        label
    }
}

} // verus!
