# network_shapley

What is each operator of a shared network worth? Operators own devices and links;
demands ask for traffic between cities; a public network reaches every city at a higher
latency. For each coalition of operators a linear program finds the least cost of carrying
all demands over what the coalition owns and the public network. The Shapley values of
the resulting game are the operators' values.

`src/` is a Verus library: the tables of a network are checked and consolidated
(`validation`, `consolidation`), the linear program of the whole network is built
(`multicast`, `lp_builder`) and narrowed to coalitions (`solver`, `model`), and the values
follow from those of coalitions, over all of them (`games`, `shapley`) or over random
orders (`sampling`). `link_estimate` makes the links of one operator players of their own.
Numbers are binary64 patterns that the library reads, compares and hands on
(`quantity`); it never rounds one. The modules `laws`, `lp_meaning`, `warm`, `reuse`,
`routing`, `soundness`, `tables`, `worth` and `pairing` state and prove what holds of the
whole. `worth` says what a coalition is worth: the cheapest routing over the edges at its
disposal, limited in each bandwidth group whose first edge is among them. Solving the
coalition's own linear program finds it. One model for all coalitions, with columns held at
zero, finds it too where no limit lies below zero and the first link of a group has no
operator that another link of the group lacks; otherwise that model also keeps to the limits
of groups led by others. What a coalition is worth stays the same when links and devices of
other operators change, unless a group comes to be led, or ceases to be, by a link of an
operator that changed.

`app/` computes in floating point what the library plans and hands the linear programs to
HiGHS. `tests/` runs the library on whole networks, with a small simplex method of its own.
