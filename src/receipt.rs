//! Layout of the printed receipt of a closed transaction: a list of printer
//! commands whose text lines are built here, from integer amounts in cents.
use vstd::prelude::*;
use vstd::string::*;

verus! {

/// The decimal digit `d` as a character.
pub open spec fn digit_char(d: nat) -> char {
    if d == 0 { '0' }
    else if d == 1 { '1' }
    else if d == 2 { '2' }
    else if d == 3 { '3' }
    else if d == 4 { '4' }
    else if d == 5 { '5' }
    else if d == 6 { '6' }
    else if d == 7 { '7' }
    else if d == 8 { '8' }
    else { '9' }
}

/// The decimal digits of `n`, without leading zeros.
pub open spec fn digits(n: nat) -> Seq<char>
    decreases n,
{
    if n < 10 {
        seq![digit_char(n)]
    } else {
        digits(n / 10) + seq![digit_char(n % 10)]
    }
}

/// An amount of `cents` written as units, a point and two decimals.
pub open spec fn amount_text(cents: nat) -> Seq<char> {
    digits(cents / 100) + seq!['.', digit_char((cents % 100) / 10), digit_char(cents % 10)]
}

/// `n` spaces.
pub open spec fn spaces(n: nat) -> Seq<char> {
    Seq::new(n, |i: int| ' ')
}

/// `s` right-aligned in a field of `width` characters; longer text is kept whole.
pub open spec fn pad_left(s: Seq<char>, width: nat) -> Seq<char> {
    if s.len() < width {
        spaces((width - s.len()) as nat) + s
    } else {
        s
    }
}

/// `s` left-aligned in a field of `width` characters; longer text is kept whole.
pub open spec fn pad_right(s: Seq<char>, width: nat) -> Seq<char> {
    if s.len() < width {
        s + spaces((width - s.len()) as nat)
    } else {
        s
    }
}

/// The one-character string of digit `d`.
fn digit_str(d: u64) -> (r: &'static str)
    requires
        d < 10,
    ensures
        r@ == seq![digit_char(d as nat)],
{
    if d == 0 {
        proof { reveal_strlit("0"); }
        "0"
    } else if d == 1 {
        proof { reveal_strlit("1"); }
        "1"
    } else if d == 2 {
        proof { reveal_strlit("2"); }
        "2"
    } else if d == 3 {
        proof { reveal_strlit("3"); }
        "3"
    } else if d == 4 {
        proof { reveal_strlit("4"); }
        "4"
    } else if d == 5 {
        proof { reveal_strlit("5"); }
        "5"
    } else if d == 6 {
        proof { reveal_strlit("6"); }
        "6"
    } else if d == 7 {
        proof { reveal_strlit("7"); }
        "7"
    } else if d == 8 {
        proof { reveal_strlit("8"); }
        "8"
    } else {
        proof { reveal_strlit("9"); }
        "9"
    }
}

/// The decimal digits of `n`.
pub fn format_digits(n: u64) -> (r: String)
    ensures
        r@ == digits(n as nat),
    decreases n,
{
    if n < 10 {
        let mut r = String::new();
        r.append(digit_str(n));
        assert(r@ =~= digits(n as nat));
        r
    } else {
        let mut r = format_digits(n / 10);
        r.append(digit_str(n % 10));
        r
    }
}

/// An amount in cents as units, a point and two decimals (`1250` gives
/// `12.50`).
pub fn format_amount(cents: u64) -> (r: String)
    ensures
        r@ == amount_text(cents as nat),
{
    let mut r = format_digits(cents / 100);
    proof { reveal_strlit("."); }
    r.append(".");
    r.append(digit_str((cents % 100) / 10));
    r.append(digit_str(cents % 10));
    assert(r@ =~= amount_text(cents as nat));
    r
}

/// Appends `n` spaces.
fn push_spaces(out: &mut String, n: usize)
    ensures
        final(out)@ == old(out)@ + spaces(n as nat),
{
    let mut k: usize = 0;
    proof { reveal_strlit(" "); }
    assert(old(out)@ + spaces(0) =~= old(out)@);
    while k < n
        invariant
            k <= n,
            out@ == old(out)@ + spaces(k as nat),
            " "@ == seq![' '],
        decreases n - k,
    {
        out.append(" ");
        assert(old(out)@ + spaces((k + 1) as nat) =~= old(out)@ + spaces(k as nat) + seq![' ']);
        k = k + 1;
    }
}

/// Appends `s` right-aligned in a field of `width` characters.
fn push_padded_left(out: &mut String, s: &str, width: usize)
    ensures
        final(out)@ == old(out)@ + pad_left(s@, width as nat),
{
    let len = s.unicode_len();
    if len < width {
        push_spaces(out, width - len);
    }
    out.append(s);
    assert(final(out)@ =~= old(out)@ + pad_left(s@, width as nat)) by {
        if len < width {
            assert(old(out)@ + spaces((width - len) as nat) + s@ =~= old(out)@ + (spaces(
                (width - len) as nat,
            ) + s@));
        }
    }
}

/// Appends `s` left-aligned in a field of `width` characters.
fn push_padded_right(out: &mut String, s: &str, width: usize)
    ensures
        final(out)@ == old(out)@ + pad_right(s@, width as nat),
{
    let len = s.unicode_len();
    out.append(s);
    if len < width {
        push_spaces(out, width - len);
    }
    assert(final(out)@ =~= old(out)@ + pad_right(s@, width as nat));
}

/// Horizontal alignment of printed text.
#[derive(Clone, Copy, Debug, PartialEq, Eq, Structural)]
pub enum Alignment {
    Left,
    Center,
    Right,
}

/// One instruction to a receipt printer.
#[derive(Debug)]
pub enum ReceiptCommand {
    Init,
    Align(Alignment),
    LineSpacing(u8),
    Text(String),
    Bold(bool),
    Feed(u8),
    Cut,
}

/// The mathematical value of a [`ReceiptCommand`].
pub enum CommandView {
    Init,
    Align(Alignment),
    LineSpacing(u8),
    Text(Seq<char>),
    Bold(bool),
    Feed(u8),
    Cut,
}

impl View for ReceiptCommand {
    type V = CommandView;

    open spec fn view(&self) -> CommandView {
        match self {
            ReceiptCommand::Init => CommandView::Init,
            ReceiptCommand::Align(a) => CommandView::Align(*a),
            ReceiptCommand::LineSpacing(h) => CommandView::LineSpacing(*h),
            ReceiptCommand::Text(t) => CommandView::Text(t@),
            ReceiptCommand::Bold(b) => CommandView::Bold(*b),
            ReceiptCommand::Feed(n) => CommandView::Feed(*n),
            ReceiptCommand::Cut => CommandView::Cut,
        }
    }
}

/// One printed line of a receipt: an item's name, the quantity sold and the
/// unit price in cents.
#[derive(Debug)]
pub struct ReceiptLine {
    pub name: String,
    pub quantity: u32,
    pub unit_price: u64,
}

/// The mathematical value of a [`ReceiptLine`].
pub struct ReceiptLineView {
    pub name: Seq<char>,
    pub quantity: u32,
    pub unit_price: u64,
}

impl View for ReceiptLine {
    type V = ReceiptLineView;

    open spec fn view(&self) -> ReceiptLineView {
        ReceiptLineView { name: self.name@, quantity: self.quantity, unit_price: self.unit_price }
    }
}

/// The views of a sequence of receipt lines.
pub open spec fn line_views(v: Seq<ReceiptLine>) -> Seq<ReceiptLineView> {
    v.map_values(|l: ReceiptLine| l@)
}

/// The views of a sequence of commands.
pub open spec fn command_views(v: Seq<ReceiptCommand>) -> Seq<CommandView> {
    v.map_values(|c: ReceiptCommand| c@)
}

/// A rule of 48 dashes ending the line.
pub open spec fn rule_text() -> Seq<char> {
    Seq::new(48, |i: int| '-') + seq!['\n']
}

/// The printed line of an item: the name in 20 columns, the quantity in 2,
/// the unit price in 9 and the line total, quantity times unit price, in 12.
pub open spec fn item_text(name: Seq<char>, quantity: nat, unit_price: nat) -> Seq<char> {
    pad_right(name, 20) + seq![' '] + pad_left(digits(quantity), 2) + seq![' ', 'x', ' ']
        + pad_left(amount_text(unit_price), 9) + seq![' '] + pad_left(
        amount_text(quantity * unit_price),
        12,
    ) + seq!['\n']
}

/// The sum of quantity times unit price over the lines.
pub open spec fn receipt_total(items: Seq<ReceiptLineView>) -> nat
    decreases items.len(),
{
    if items.len() == 0 {
        0
    } else {
        (receipt_total(items.drop_last()) + items.last().quantity as int * items.last().unit_price as int) as nat
    }
}

/// The header: initialise, a centred title and a rule, then left alignment.
pub open spec fn header_commands() -> Seq<CommandView> {
    seq![
        CommandView::Init,
        CommandView::Align(Alignment::Center),
        CommandView::LineSpacing(1),
        CommandView::Text(seq!['R', 'E', 'C', 'E', 'I', 'P', 'T', '\n']),
        CommandView::Text(rule_text()),
        CommandView::Align(Alignment::Left),
    ]
}

/// The item lines, one text command each.
pub open spec fn item_commands(items: Seq<ReceiptLineView>) -> Seq<CommandView> {
    items.map_values(
        |l: ReceiptLineView| CommandView::Text(item_text(l.name, l.quantity as nat, l.unit_price as nat)),
    )
}

/// The footer: a rule, the bold grand total, a rule, then the payment and
/// the change, a feed and a cut.
pub open spec fn footer_commands(total: nat, paid: nat, change: nat) -> Seq<CommandView> {
    seq![
        CommandView::Align(Alignment::Center),
        CommandView::Text(rule_text()),
        CommandView::Align(Alignment::Left),
        CommandView::Bold(true),
        CommandView::Text(
            seq!['T', 'O', 'T', 'A', 'L', ':', ' '] + pad_left(amount_text(total), 35) + seq!['\n'],
        ),
        CommandView::Text(rule_text()),
        CommandView::Feed(1),
        CommandView::Bold(false),
        CommandView::Text(seq!['P', 'a', 'i', 'd', ':', ' '] + amount_text(paid) + seq!['\n']),
        CommandView::Text(
            seq!['C', 'h', 'a', 'n', 'g', 'e', ':', ' '] + amount_text(change) + seq!['\n'],
        ),
        CommandView::Feed(6),
        CommandView::Cut,
    ]
}

/// The whole receipt.
pub open spec fn receipt_layout(items: Seq<ReceiptLineView>, paid: nat, change: nat) -> Seq<CommandView> {
    header_commands() + item_commands(items) + footer_commands(receipt_total(items), paid, change)
}

/// A rule of 48 dashes ending the line.
fn rule() -> (r: String)
    ensures
        r@ == rule_text(),
{
    let s = "------------------------------------------------\n";
    proof { reveal_strlit("------------------------------------------------\n"); }
    assert(s@ =~= rule_text());
    String::from_str(s)
}

/// `prefix`, then `body`, then a line end.
fn line_of(prefix: &str, body: &str) -> (r: String)
    ensures
        r@ == prefix@ + body@ + seq!['\n'],
{
    let mut r = String::from_str(prefix);
    r.append(body);
    proof { reveal_strlit("\n"); }
    r.append("\n");
    r
}

/// The printed line of one item.
pub fn format_item_line(name: &str, quantity: u32, unit_price: u64) -> (r: String)
    requires
        quantity as int * unit_price as int <= u64::MAX,
    ensures
        r@ == item_text(name@, quantity as nat, unit_price as nat),
{
    let mut r = String::new();
    push_padded_right(&mut r, name, 20);
    proof {
        reveal_strlit(" ");
        reveal_strlit(" x ");
        reveal_strlit("\n");
    }
    r.append(" ");
    let q = format_digits(quantity as u64);
    push_padded_left(&mut r, q.as_str(), 2);
    r.append(" x ");
    let p = format_amount(unit_price);
    push_padded_left(&mut r, p.as_str(), 9);
    r.append(" ");
    let t = format_amount(quantity as u64 * unit_price);
    push_padded_left(&mut r, t.as_str(), 12);
    r.append("\n");
    assert(r@ =~= item_text(name@, quantity as nat, unit_price as nat));
    r
}

/// The printer commands of a receipt for `items`, the amount paid and the
/// change, all in cents.  The grand total is the sum of quantity times unit
/// price over the items.
pub fn receipt_commands(items: &Vec<ReceiptLine>, paid_amount: u64, change: u64) -> (r: Vec<
    ReceiptCommand,
>)
    requires
        receipt_total(line_views(items@)) <= u64::MAX,
    ensures
        command_views(r@) == receipt_layout(line_views(items@), paid_amount as nat, change as nat),
{
    let mut r: Vec<ReceiptCommand> = Vec::new();
    r.push(ReceiptCommand::Init);
    r.push(ReceiptCommand::Align(Alignment::Center));
    r.push(ReceiptCommand::LineSpacing(1));
    let title = "RECEIPT\n";
    proof { reveal_strlit("RECEIPT\n"); }
    assert(title@ =~= seq!['R', 'E', 'C', 'E', 'I', 'P', 'T', '\n']);
    r.push(ReceiptCommand::Text(String::from_str(title)));
    r.push(ReceiptCommand::Text(rule()));
    r.push(ReceiptCommand::Align(Alignment::Left));
    assert(command_views(r@) =~~= header_commands());
    let mut total: u64 = 0;
    let mut k: usize = 0;
    while k < items.len()
        invariant
            k <= items@.len(),
            line_views(items@).len() == items@.len(),
            receipt_total(line_views(items@)) <= u64::MAX,
            total == receipt_total(line_views(items@).take(k as int)),
            command_views(r@) =~= header_commands() + item_commands(line_views(items@).take(k as int)),
        decreases items@.len() - k,
    {
        let l = &items[k];
        proof {
            assert(line_views(items@).take(k + 1).drop_last() =~= line_views(items@).take(k as int));
            lemma_receipt_total_prefix(line_views(items@), k + 1);
        }
        let ghost prev = command_views(r@);
        let line = format_item_line(l.name.as_str(), l.quantity, l.unit_price);
        let ghost cv = CommandView::Text(line@);
        r.push(ReceiptCommand::Text(line));
        total = total + (l.quantity as u64) * l.unit_price;
        proof {
            assert(command_views(r@) =~= prev.push(cv));
            assert(item_commands(line_views(items@).take(k + 1)) =~= item_commands(line_views(items@).take(k as int)).push(
                cv,
            ));
            assert(header_commands() + item_commands(line_views(items@).take(k as int)).push(cv) =~= (
            header_commands() + item_commands(line_views(items@).take(k as int))).push(cv));
        }
        k = k + 1;
    }
    assert(line_views(items@).take(k as int) =~= line_views(items@));
    r.push(ReceiptCommand::Align(Alignment::Center));
    r.push(ReceiptCommand::Text(rule()));
    r.push(ReceiptCommand::Align(Alignment::Left));
    r.push(ReceiptCommand::Bold(true));
    let mut padded = String::new();
    let t = format_amount(total);
    push_padded_left(&mut padded, t.as_str(), 35);
    proof {
        reveal_strlit("TOTAL: ");
        reveal_strlit("Paid: ");
        reveal_strlit("Change: ");
    }
    let total_line = line_of("TOTAL: ", padded.as_str());
    assert(total_line@ =~= seq!['T', 'O', 'T', 'A', 'L', ':', ' '] + pad_left(
        amount_text(total as nat),
        35,
    ) + seq!['\n']);
    r.push(ReceiptCommand::Text(total_line));
    r.push(ReceiptCommand::Text(rule()));
    r.push(ReceiptCommand::Feed(1));
    r.push(ReceiptCommand::Bold(false));
    let p = format_amount(paid_amount);
    let paid_line = line_of("Paid: ", p.as_str());
    assert(paid_line@ =~= seq!['P', 'a', 'i', 'd', ':', ' '] + amount_text(paid_amount as nat)
        + seq!['\n']);
    r.push(ReceiptCommand::Text(paid_line));
    let c = format_amount(change);
    let change_line = line_of("Change: ", c.as_str());
    assert(change_line@ =~= seq!['C', 'h', 'a', 'n', 'g', 'e', ':', ' '] + amount_text(
        change as nat,
    ) + seq!['\n']);
    r.push(ReceiptCommand::Text(change_line));
    r.push(ReceiptCommand::Feed(6));
    r.push(ReceiptCommand::Cut);
    assert(command_views(r@) =~~= receipt_layout(line_views(items@), paid_amount as nat, change as nat));
    r
}

/// A prefix of the lines never totals more than all of them.
pub proof fn lemma_receipt_total_prefix(items: Seq<ReceiptLineView>, k: int)
    requires
        0 <= k <= items.len(),
    ensures
        receipt_total(items.take(k)) <= receipt_total(items),
    decreases items.len() - k,
{
    if k < items.len() {
        assert(items.take(k + 1).drop_last() =~= items.take(k));
        lemma_receipt_total_prefix(items, k + 1);
    } else {
        assert(items.take(k) =~= items);
    }
}

} // verus!
