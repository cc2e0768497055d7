# Ternary evolutionary operators, verified

Evolutionary algorithms over ternary genomes (genes in {-1, 0, +1}): differential
evolution, a CMA-ES-like distribution adaptation, NSGA-II multi-objective optimisation,
speciation and fitness sharing.

- `src/` is the verified library (Verus). Objective values and crowding distances are
  carried as order keys (integers ordered as the numbers are, or `None` for a value that
  orders against nothing), so that dominance, non-dominated sorting, crowding order,
  speciation, niching, tournament breeding and survivor selection are proved against
  their specifications.
  - `rng`: the linear congruential generator, random genomes and seeded populations.
  - `individual`: individuals, Hamming and squared Euclidean distances.
  - `pareto`: dominance and non-dominated sorting, with the laws of the fronts.
  - `ordering`: stable orderings by key; the order of a front along one objective.
  - `diversity`: leader-based speciation and niche neighbourhoods.
  - `nsga`: tournament offspring, rank assignment, survivor selection, the two halves of
    a generation (`rank_generation`, `select_next_generation`) with its laws, Pareto front.
- `app/` holds the floating-point side (fitness values, crowding distances, the DE and
  CMA-ES optimisers, the NSGA-II driver) on top of the library.
- `tests/` exercises the library on concrete values.
