//! A network ready to be solved for any coalition of its players.
use crate::error::ShapleyError;
use crate::lp_builder::{inner, program_fits_together, sizes_fit, LpBuilderInput, LpBuilderOutput};
use crate::reuse::masks_of;
use crate::shapley::{gate_of, operator_masks, reuse_gate};
use crate::solver::{
    coalition_program, is_usable, no_columns, rows_within, CoalitionBuffers, CoalitionProgram,
    PrecomputedRows,
};
use crate::text::views;
use crate::types::{ConsolidatedDemand, ConsolidatedLink, EdgeRow, FlowRow};
use vstd::prelude::*;

verus! {

/// The linear program of a network, row by row, with the players that each column and
/// row belongs to.
#[derive(Debug)]
pub struct CoalitionModel {
    pub program: LpBuilderOutput,
    pub rows: PrecomputedRows,
    pub col_op1_mask: Vec<u32>,
    pub col_op2_mask: Vec<u32>,
    pub row_op1_mask: Vec<u32>,
    pub row_op2_mask: Vec<u32>,
    /// The players that changed since an earlier run.
    pub reuse_gate: u32,
}

impl CoalitionModel {
    /// The model is that of the edges, flows and players.
    pub open spec fn describes(
        self,
        edges: Seq<EdgeRow>,
        flows: Seq<FlowRow>,
        players: Seq<Seq<char>>,
        changed: Seq<Seq<char>>,
    ) -> bool {
        &&& self.program.describes(edges, flows)
        &&& self.rows.of(self.program)
        &&& self.col_op1_mask@ == masks_of(views(self.program.col_op1@), players)
        &&& self.col_op2_mask@ == masks_of(views(self.program.col_op2@), players)
        &&& self.row_op1_mask@ == masks_of(views(self.program.row_op1@), players)
        &&& self.row_op2_mask@ == masks_of(views(self.program.row_op2@), players)
        &&& self.reuse_gate == gate_of(changed, players)
    }

    /// Columns and rows have their players, and rows name columns.
    pub open spec fn wf(self) -> bool {
        &&& self.col_op2_mask@.len() == self.col_op1_mask@.len()
        &&& self.row_op2_mask@.len() == self.row_op1_mask@.len()
        &&& rows_within(inner(self.rows.eq_rows@), self.col_op1_mask@.len() as int)
        &&& rows_within(inner(self.rows.ub_rows@), self.col_op1_mask@.len() as int)
    }

    /// No more inequalities have players than there are.
    pub open spec fn lines_up(self) -> bool {
        self.row_op1_mask@.len() <= self.rows.ub_rows@.len()
    }

    /// Whether no more inequalities have players than there are.
    pub fn does_line_up(&self) -> (r: bool)
        ensures
            r == self.lines_up(),
    {
        self.row_op1_mask.len() <= self.rows.ub_rows.len()
    }

    /// Makes the model of a network.
    pub fn over_map(
        players: &[String],
        full_map: &[ConsolidatedLink],
        full_demand: &[ConsolidatedDemand],
        changed_operators: &[String],
    ) -> (r: Result<Self, ShapleyError>)
        requires
            players@.len() <= 32,
            sizes_fit(views(full_map@), views(full_demand@)),
        ensures
            r matches Ok(model) && model.wf() && model.describes(
                views(full_map@),
                views(full_demand@),
                views(players@),
                views(changed_operators@),
            ),
    {
        let program = match LpBuilderInput::new(full_map, full_demand).build() {
            Ok(program) => program,
            Err(e) => {
                return Err(e);
            },
        };
        let n_links: usize = full_map.len();
        proof {
            assert(views(full_map@).len() == n_links);
            program_fits_together(program, views(full_map@), views(full_demand@));
        }
        let rows = PrecomputedRows::new(&program);
        let col_op1_mask = operator_masks(program.col_op1.as_slice(), players);
        let col_op2_mask = operator_masks(program.col_op2.as_slice(), players);
        let row_op1_mask = operator_masks(program.row_op1.as_slice(), players);
        let row_op2_mask = operator_masks(program.row_op2.as_slice(), players);
        let gate: u32 = reuse_gate(changed_operators, players);
        proof {
            crate::lp_builder::row_operators_len(
                views(full_map@),
                views(full_demand@),
                false,
            );
            crate::lp_builder::row_operators_len(views(full_map@), views(full_demand@), true);
        }
        Ok(
            CoalitionModel {
                program,
                rows,
                col_op1_mask,
                col_op2_mask,
                row_op1_mask,
                row_op2_mask,
                reuse_gate: gate,
            },
        )
    }

    /// The linear program of a coalition.
    pub fn program_for(&self, buffers: &mut CoalitionBuffers, coalition_mask: u32) -> (r: Result<
        CoalitionProgram,
        ShapleyError,
    >)
        requires
            self.wf(),
            self.lines_up(),
        ensures
            r is Ok <==> exists|i: int|
                0 <= i < self.col_op1_mask@.len() && #[trigger] is_usable(
                    self.col_op1_mask@,
                    self.col_op2_mask@,
                    coalition_mask,
                    i,
                ),
            r matches Ok(program) ==> program.describes(
                self.rows,
                coalition_mask,
                self.col_op1_mask@,
                self.col_op2_mask@,
                self.row_op1_mask@,
                self.row_op2_mask@,
            ),
            r matches Err(e) ==> e@ == no_columns(),
            final(buffers).describes(
                coalition_mask,
                self.col_op1_mask@,
                self.col_op2_mask@,
                self.row_op1_mask@,
                self.row_op2_mask@,
            ),
    {
        coalition_program(
            &self.rows,
            buffers,
            coalition_mask,
            self.col_op1_mask.as_slice(),
            self.col_op2_mask.as_slice(),
            self.row_op1_mask.as_slice(),
            self.row_op2_mask.as_slice(),
        )
    }
}

} // verus!
