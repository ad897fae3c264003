//! The options of a keyboard, as they stand in its settings, and what they
//! become in the generated code.

use vstd::prelude::*;
use crate::text::decimal;
use crate::types::c_tree::{models, number, push_tree, extend_trees, CTree, CTreeView};
use crate::types::chord::{bytes_for, permutation_error, takes, ChordSpec, Permutation, Pin, SwitchPos};
use crate::types::errors::{Error, ErrorView};
use crate::types::names::{code_views, CCode};

verus! {

/// A delay in milliseconds.
#[derive(Debug, Clone, Copy, PartialEq, Eq, Structural)]
pub struct Delay(pub u16);

/// How much the firmware reports over the serial line.
#[derive(Debug, Clone, Copy, PartialEq, Eq, Structural)]
pub enum Verbosity {
    NoMessages,
    SomeMessages,
    All,
}

/// The board that the firmware is built for.
#[derive(Debug, Clone, Copy, PartialEq, Eq, Structural)]
#[allow(non_camel_case_types)]
pub enum BoardName {
    FEATHER_M0_BLE,
    TEENSY_LC,
}

/// Where the space of a word is typed.
#[derive(Debug, Clone, Copy, PartialEq, Eq, Structural)]
pub enum WordSpacePosition {
    Before,
    After,
    Nowhere,
}

/// The shape of a layout file: for each line of a block, the switches that
/// its characters stand for.
#[derive(Debug, PartialEq, Eq)]
pub struct KmapFormat(pub Vec<Vec<SwitchPos>>);

/// The options of a keyboard.
#[derive(Debug, PartialEq, Eq)]
pub struct OptionsConfig {
    pub chord_delay: Delay,
    pub held_delay: Delay,
    pub debounce_delay: Delay,
    pub debug_messages: Verbosity,
    pub board_name: BoardName,
    pub row_pins: Vec<Pin>,
    pub column_pins: Vec<Pin>,
    pub kmap_format: KmapFormat,
    pub rgb_led_pins: Option<[Pin; 3]>,
    pub battery_level_pin: Option<Pin>,
    pub word_space_position: WordSpacePosition,
    pub output_directory: String,
    pub tutor_directory: String,
    pub enable_led_typing_feedback: bool,
    pub enable_audio_typing_feedback: bool,
}

/// The directory for the generated files, where the settings name none.
pub fn default_output_dir() -> (dir: String)
    ensures
        dir@ == "pipit-firmware"@,
{
    "pipit-firmware".to_owned()
}

/// The directory of the tutor's data, where the settings name none.
pub fn default_tutor_dir() -> (dir: String)
    ensures
        dir@ == "tutor"@,
{
    "tutor".to_owned()
}

/// The value of a switch that the settings leave out.
pub fn return_false() -> (b: bool)
    ensures
        !b,
{
    false
}

/// The number of bytes that hold `num_bits` bits.
pub fn round_up_to_num_bytes(num_bits: usize) -> (num_bytes: usize)
    ensures
        num_bytes == bytes_for(num_bits as nat),
        8 * num_bytes >= num_bits,
        8 * num_bytes < num_bits + 8,
{
    if num_bits % 8 == 0 {
        num_bits / 8
    } else {
        num_bits / 8 + 1
    }
}

impl Delay {
    /// The delay as a number of the generated code.
    pub fn to_c(self) -> (code: CCode)
        ensures
            code@ == decimal(self.0 as nat),
    {
        number(self.0 as usize)
    }
}

impl Verbosity {
    /// The level as a number: 0 for none, 1 for some, 2 for all.
    pub open spec fn level(self) -> nat {
        match self {
            Verbosity::NoMessages => 0,
            Verbosity::SomeMessages => 1,
            Verbosity::All => 2,
        }
    }

    /// The level as a number of the generated code.
    pub fn to_c(self) -> (code: CCode)
        ensures
            code@ == decimal(self.level()),
    {
        match self {
            Verbosity::NoMessages => number(0),
            Verbosity::SomeMessages => number(1),
            Verbosity::All => number(2),
        }
    }
}

impl WordSpacePosition {
    /// The position as a number: 0 for before, 1 for after, 2 for none.
    pub open spec fn level(self) -> nat {
        match self {
            WordSpacePosition::Before => 0,
            WordSpacePosition::After => 1,
            WordSpacePosition::Nowhere => 2,
        }
    }

    /// The position as a number of the generated code.
    pub fn to_c(self) -> (code: CCode)
        ensures
            code@ == decimal(self.level()),
    {
        match self {
            WordSpacePosition::Before => number(0),
            WordSpacePosition::After => number(1),
            WordSpacePosition::Nowhere => number(2),
        }
    }
}

impl BoardName {
    /// The name of the board, as the firmware tests for it.
    pub open spec fn spec_to_c(self) -> Seq<char> {
        match self {
            BoardName::FEATHER_M0_BLE => "FEATHER_M0_BLE"@,
            BoardName::TEENSY_LC => "TEENSY_LC"@,
        }
    }

    /// The name of the board, as the firmware tests for it.
    pub fn to_c(self) -> (code: CCode)
        ensures
            code@ == self.spec_to_c(),
    {
        match self {
            BoardName::FEATHER_M0_BLE => CCode::new("FEATHER_M0_BLE"),
            BoardName::TEENSY_LC => CCode::new("TEENSY_LC"),
        }
    }
}

/// The numbers of a list of pins.
pub open spec fn pin_numbers(pins: Seq<Pin>) -> Seq<Seq<char>> {
    pins.map_values(|p: Pin| decimal(p.0 as nat))
}

impl Pin {
    /// The pin as a number of the generated code.
    pub fn to_c(self) -> (code: CCode)
        ensures
            code@ == decimal(self.0 as nat),
    {
        number(self.0 as usize)
    }

    /// The pins as numbers of the generated code.
    pub fn to_c_vec(pins: &Vec<Pin>) -> (codes: Vec<CCode>)
        ensures
            code_views(codes@) == pin_numbers(pins@),
    {
        let mut codes: Vec<CCode> = Vec::new();
        let mut i: usize = 0;
        while i < pins.len()
            invariant
                i <= pins.len(),
                codes.len() == i,
                forall|j: int| 0 <= j < i ==> codes[j]@ == decimal(pins[j].0 as nat),
            decreases pins.len() - i,
        {
            codes.push(pins[i].to_c());
            i += 1;
        }
        assert(code_views(codes@) =~= pin_numbers(pins@));
        codes
    }
}

/// The switches of all the lines, one line after the other.
pub open spec fn flat(lines: Seq<Vec<SwitchPos>>) -> Seq<SwitchPos>
    decreases lines.len(),
{
    if lines.len() == 0 {
        Seq::empty()
    } else {
        flat(lines.drop_last()) + lines.last()@
    }
}

/// The switches of one column: each pin of `rows` with the pin `column`.
pub open spec fn column_switches(rows: Seq<Pin>, column: Pin) -> Seq<SwitchPos> {
    rows.map_values(|row: Pin| SwitchPos { row, col: column })
}

/// The order in which the firmware scans the matrix: the switches of the
/// first column from the first row to the last, then those of the second
/// column, and so on.
pub open spec fn scan_order(rows: Seq<Pin>, columns: Seq<Pin>) -> Seq<SwitchPos>
    decreases columns.len(),
{
    if columns.len() == 0 {
        Seq::empty()
    } else {
        scan_order(rows, columns.drop_last()) + column_switches(rows, columns.last())
    }
}

/// The scan visits each pair of a row and a column.
pub proof fn lemma_scan_order_len(rows: Seq<Pin>, columns: Seq<Pin>)
    ensures
        scan_order(rows, columns).len() == rows.len() * columns.len(),
    decreases columns.len(),
{
    if columns.len() > 0 {
        lemma_scan_order_len(rows, columns.drop_last());
        let r = rows.len() as int;
        let c = columns.len() as int;
        assert(r * (c - 1) + r == r * c) by (nonlinear_arith);
    } else {
        assert(rows.len() * 0 == 0) by (nonlinear_arith);
    }
}

impl KmapFormat {
    /// The switches in the order of a layout file.
    pub open spec fn spec_flat_order(&self) -> Seq<SwitchPos> {
        flat(self.0@)
    }

    /// The number of characters of each line of a block.
    pub open spec fn spec_items_per_line(&self) -> Seq<nat> {
        self.0@.map_values(|line: Vec<SwitchPos>| line@.len())
    }

    /// The switches in the order of a layout file.
    pub fn flat_order(&self) -> (order: Vec<SwitchPos>)
        ensures
            order@ == self.spec_flat_order(),
    {
        let mut order: Vec<SwitchPos> = Vec::new();
        let mut i: usize = 0;
        while i < self.0.len()
            invariant
                i <= self.0.len(),
                order@ == flat(self.0@.take(i as int)),
            decreases self.0.len() - i,
        {
            let line = &self.0[i];
            let ghost before = order@;
            let mut j: usize = 0;
            while j < line.len()
                invariant
                    j <= line.len(),
                    order@ == before + line@.take(j as int),
                decreases line.len() - j,
            {
                order.push(line[j]);
                assert(order@ =~= before + line@.take(j + 1));
                j += 1;
            }
            proof {
                assert(line@.take(j as int) == line@);
                assert(self.0@.take(i + 1).drop_last() == self.0@.take(i as int));
            }
            i += 1;
        }
        assert(self.0@.take(i as int) == self.0@);
        order
    }

    /// The number of characters of each line of a block.
    pub fn items_per_line(&self) -> (counts: Vec<usize>)
        ensures
            counts@.map_values(|n: usize| n as nat) == self.spec_items_per_line(),
    {
        let mut counts: Vec<usize> = Vec::new();
        let mut i: usize = 0;
        while i < self.0.len()
            invariant
                i <= self.0.len(),
                counts.len() == i,
                forall|j: int| 0 <= j < i ==> counts[j] == self.0[j]@.len(),
            decreases self.0.len() - i,
        {
            counts.push(self.0[i].len());
            i += 1;
        }
        assert(counts@.map_values(|n: usize| n as nat) =~= self.spec_items_per_line());
        counts
    }

    /// The number of switches of a layout.
    pub fn chord_length(&self) -> (n: usize)
        ensures
            n == self.spec_flat_order().len(),
    {
        self.flat_order().len()
    }
}


/// `#define name value`, as a mathematical value.
pub open spec fn define_view(name: Seq<char>, value: Seq<char>) -> CTreeView {
    CTreeView::Define { name, value }
}

/// `#define name` if `value`, as a mathematical value.
pub open spec fn ifdef_view(name: Seq<char>, value: bool) -> CTreeView {
    CTreeView::Ifdef { name, value }
}

/// An `extern` array of `uint8_t` that holds the numbers of `pins`.
pub open spec fn pin_array_view(name: Seq<char>, pins: Seq<Pin>) -> CTreeView {
    CTreeView::Array { name, values: pin_numbers(pins), c_type: "uint8_t"@, is_extern: true }
}

impl OptionsConfig {
    /// The matrix is small enough for its positions, filled up to whole
    /// bytes, to be counted.
    pub open spec fn fits(&self) -> bool {
        self.row_pins.len() * self.column_pins.len() + 7 <= usize::MAX
    }

    /// The switches in the order of the firmware's scan.
    pub open spec fn spec_firmware_order(&self) -> Seq<SwitchPos> {
        scan_order(self.row_pins@, self.column_pins@)
    }

    /// The options that are written as they stand in the settings.
    pub open spec fn spec_literal_ops(&self) -> Seq<CTreeView> {
        seq![
            define_view("CHORD_DELAY"@, decimal(self.chord_delay.0 as nat)),
            define_view("HELD_DELAY"@, decimal(self.held_delay.0 as nat)),
            define_view("DEBOUNCE_DELAY"@, decimal(self.debounce_delay.0 as nat)),
            define_view("DEBUG_MESSAGES"@, decimal(self.debug_messages.level())),
            define_view("WORD_SPACE_POSITION"@, decimal(self.word_space_position.level())),
            ifdef_view(self.board_name.spec_to_c(), true),
            pin_array_view("row_pins"@, self.row_pins@),
            pin_array_view("column_pins"@, self.column_pins@),
            ifdef_view("ENABLE_LED_TYPING_FEEDBACK"@, self.enable_led_typing_feedback),
            ifdef_view("ENABLE_AUDIO_TYPING_FEEDBACK"@, self.enable_audio_typing_feedback),
        ] + (match self.rgb_led_pins {
            Some(pins) => seq![pin_array_view("rgb_led_pins"@, seq![pins[0], pins[1], pins[2]])],
            None => Seq::empty(),
        }) + (match self.battery_level_pin {
            Some(pin) => seq![
                CTreeView::ConstVar {
                    name: "battery_level_pin"@,
                    value: decimal(pin.0 as nat),
                    c_type: "uint8_t"@,
                    is_extern: true,
                },
            ],
            None => Seq::empty(),
        })
    }

    /// The options that follow from the others: the sizes of the matrix and
    /// of a chord, the number of pins of the light, and whether there is a
    /// light and a battery.
    pub open spec fn spec_auto_ops(&self) -> Seq<CTreeView> {
        seq![
            define_view("NUM_ROWS"@, decimal(self.row_pins.len() as nat)),
            define_view("NUM_COLUMNS"@, decimal(self.column_pins.len() as nat)),
            define_view(
                "NUM_MATRIX_POSITIONS"@,
                decimal((self.row_pins.len() * self.column_pins.len()) as nat),
            ),
            define_view(
                "NUM_BYTES_IN_CHORD"@,
                decimal(bytes_for((self.row_pins.len() * self.column_pins.len()) as nat)),
            ),
            define_view(
                "NUM_RGB_LED_PINS"@,
                decimal(
                    if self.rgb_led_pins is Some {
                        3
                    } else {
                        0
                    },
                ),
            ),
            ifdef_view("ENABLE_RGB_LED"@, self.rgb_led_pins is Some),
            ifdef_view("HAS_BATTERY"@, self.battery_level_pin is Some),
        ]
    }

    /// All the options as declarations: those of the settings, then those
    /// that follow from them.
    pub fn to_vec(&self) -> (ops: Vec<CTree>)
        requires
            self.fits(),
        ensures
            models(ops@) == self.spec_literal_ops() + self.spec_auto_ops(),
    {
        let mut ops = self.get_literal_ops();
        extend_trees(&mut ops, self.get_auto_ops());
        ops
    }

    /// What every chord of this keyboard shares. Fails where the layout
    /// names a switch that the pins do not give, or does not name each
    /// switch of the matrix exactly once.
    pub fn global_chord_info(&self) -> (r: Result<ChordSpec, Error>)
        requires
            self.fits(),
        ensures
            match permutation_error(self.kmap_format.spec_flat_order(), self.spec_firmware_order()) {
                Some(e) => r is Err && r->Err_0@ == (ErrorView::Context {
                    message: "'kmap_format' contains pin numbers not present in 'row_pins' or 'column_pins'"@,
                    cause: Box::new(e),
                }),
                None => r is Ok && r->Ok_0.wf() && takes(
                    r->Ok_0.to_firmware_order.forward_seq(),
                    self.kmap_format.spec_flat_order(),
                    self.spec_firmware_order(),
                ) && r->Ok_0.num_matrix_positions == self.row_pins.len() * self.column_pins.len(),
            },
    {
        proof {
            lemma_scan_order_len(self.row_pins@, self.column_pins@);
        }
        let from = self.kmap_format.flat_order();
        let to = self.firmware_order();
        match Permutation::from_to(&from, &to) {
            Ok(permutation) => Ok(
                ChordSpec {
                    num_bytes: self.num_bytes_in_chord(),
                    num_switches: from.len(),
                    num_matrix_positions: self.num_matrix_positions(),
                    to_firmware_order: permutation,
                },
            ),
            Err(e) => Err(
                e.context(
                    "'kmap_format' contains pin numbers not present in 'row_pins' or 'column_pins'",
                ),
            ),
        }
    }

    /// The directory for the generated files.
    pub fn output_directory(&self) -> (dir: String)
        ensures
            dir@ == self.output_directory@,
    {
        self.output_directory.clone()
    }

    /// The directory of the tutor's data.
    pub fn tutor_directory(&self) -> (dir: String)
        ensures
            dir@ == self.tutor_directory@,
    {
        self.tutor_directory.clone()
    }

    /// The options that are written as they stand in the settings.
    pub fn get_literal_ops(&self) -> (ops: Vec<CTree>)
        ensures
            models(ops@) == self.spec_literal_ops(),
    {
        let mut ops: Vec<CTree> = Vec::new();
        assert(models(ops@) =~= Seq::<CTreeView>::empty());
        push_tree(&mut ops, CTree::define("CHORD_DELAY", self.chord_delay.to_c()));
        push_tree(&mut ops, CTree::define("HELD_DELAY", self.held_delay.to_c()));
        push_tree(&mut ops, CTree::define("DEBOUNCE_DELAY", self.debounce_delay.to_c()));
        push_tree(&mut ops, CTree::define("DEBUG_MESSAGES", self.debug_messages.to_c()));
        push_tree(&mut ops, CTree::define("WORD_SPACE_POSITION", self.word_space_position.to_c()));
        push_tree(&mut ops, CTree::Ifdef { name: self.board_name.to_c(), value: true });
        push_tree(&mut ops, CTree::array("row_pins", Pin::to_c_vec(&self.row_pins), "uint8_t"));
        push_tree(&mut ops, CTree::array("column_pins", Pin::to_c_vec(&self.column_pins), "uint8_t"));
        push_tree(&mut ops, CTree::ifdef("ENABLE_LED_TYPING_FEEDBACK", self.enable_led_typing_feedback));
        push_tree(
            &mut ops,
            CTree::ifdef("ENABLE_AUDIO_TYPING_FEEDBACK", self.enable_audio_typing_feedback),
        );
        let ghost fixed = models(ops@);
        if let Some(pins) = &self.rgb_led_pins {
            let mut list: Vec<Pin> = Vec::new();
            list.push(pins[0]);
            list.push(pins[1]);
            list.push(pins[2]);
            assert(list@ =~= seq![pins[0], pins[1], pins[2]]);
            push_tree(&mut ops, CTree::array("rgb_led_pins", Pin::to_c_vec(&list), "uint8_t"));
        }
        let ghost with_light = models(ops@);
        if let Some(pin) = self.battery_level_pin {
            push_tree(&mut ops, CTree::const_var("battery_level_pin", pin.to_c(), "uint8_t"));
        }
        proof {
            let light = match self.rgb_led_pins {
                Some(pins) => seq![pin_array_view("rgb_led_pins"@, seq![pins[0], pins[1], pins[2]])],
                None => Seq::empty(),
            };
            assert(with_light =~= fixed + light);
            assert(models(ops@) =~= self.spec_literal_ops());
        }
        ops
    }

    /// The options that follow from the others.
    pub fn get_auto_ops(&self) -> (ops: Vec<CTree>)
        requires
            self.fits(),
        ensures
            models(ops@) == self.spec_auto_ops(),
    {
        let has_battery = self.battery_level_pin.is_some();
        let enable_rgb_led = self.rgb_led_pins.is_some();
        let num_rgb_led_pins: usize = if enable_rgb_led {
            3
        } else {
            0
        };
        let mut ops: Vec<CTree> = Vec::new();
        assert(models(ops@) =~= Seq::<CTreeView>::empty());
        push_tree(&mut ops, CTree::define("NUM_ROWS", number(self.num_rows())));
        push_tree(&mut ops, CTree::define("NUM_COLUMNS", number(self.num_columns())));
        push_tree(&mut ops, CTree::define("NUM_MATRIX_POSITIONS", number(self.num_matrix_positions())));
        push_tree(&mut ops, CTree::define("NUM_BYTES_IN_CHORD", number(self.num_bytes_in_chord())));
        push_tree(&mut ops, CTree::define("NUM_RGB_LED_PINS", number(num_rgb_led_pins)));
        push_tree(&mut ops, CTree::ifdef("ENABLE_RGB_LED", enable_rgb_led));
        push_tree(&mut ops, CTree::ifdef("HAS_BATTERY", has_battery));
        assert(models(ops@) =~= self.spec_auto_ops());
        ops
    }

    /// The number of rows of the matrix.
    pub fn num_rows(&self) -> (n: usize)
        ensures
            n == self.row_pins.len(),
    {
        self.row_pins.len()
    }

    /// The number of columns of the matrix.
    pub fn num_columns(&self) -> (n: usize)
        ensures
            n == self.column_pins.len(),
    {
        self.column_pins.len()
    }

    /// The number of positions of the matrix.
    pub fn num_matrix_positions(&self) -> (n: usize)
        requires
            self.fits(),
        ensures
            n == self.row_pins.len() * self.column_pins.len(),
    {
        self.num_rows() * self.num_columns()
    }

    /// The number of bytes of a chord: the positions of the matrix, eight
    /// to a byte, rounded up.
    pub fn num_bytes_in_chord(&self) -> (n: usize)
        requires
            self.fits(),
        ensures
            n == bytes_for((self.row_pins.len() * self.column_pins.len()) as nat),
            8 * n <= usize::MAX,
    {
        round_up_to_num_bytes(self.num_matrix_positions())
    }

    /// The switches in the order of the firmware's scan.
    pub fn firmware_order(&self) -> (order: Vec<SwitchPos>)
        ensures
            order@ == self.spec_firmware_order(),
    {
        let mut order: Vec<SwitchPos> = Vec::new();
        let mut c: usize = 0;
        while c < self.column_pins.len()
            invariant
                c <= self.column_pins.len(),
                order@ == scan_order(self.row_pins@, self.column_pins@.take(c as int)),
            decreases self.column_pins.len() - c,
        {
            let ghost before = order@;
            let column = self.column_pins[c];
            let mut r: usize = 0;
            while r < self.row_pins.len()
                invariant
                    r <= self.row_pins.len(),
                    order@ == before + column_switches(self.row_pins@, column).take(r as int),
                decreases self.row_pins.len() - r,
            {
                order.push(SwitchPos::new(self.row_pins[r], column));
                assert(order@ =~= before + column_switches(self.row_pins@, column).take(r + 1));
                r += 1;
            }
            proof {
                let all = column_switches(self.row_pins@, column);
                assert(all.take(r as int) == all);
                assert(self.column_pins@.take(c + 1).drop_last() == self.column_pins@.take(c as int));
            }
            c += 1;
        }
        assert(self.column_pins@.take(c as int) == self.column_pins@);
        order
    }
}

} // verus!
