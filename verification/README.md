# Concord

Concord is the control plane of a private task estate: Domains, Tasks with
their current facts and frozen Phases, Members and their Claims, and the
direct dependency graph between Tasks.

`src/` is a Verus library. Each module states its functions' behaviour in
`requires`/`ensures` over spec functions and is verified:

- `state`, `graph`, `layout`: the dependency graph, its walks (reach, path,
  paths, neighbours, degree, strongly connected components and cycles) and
  the order in which the estate shows it.
- `change`, `prepare`, `phase`, `brief`: change-sets of current facts,
  settled Phases and the budgeted Task brief.
- `world`, `mutate`, `coordinate`, `forge`, `journal`, `seat`: the decisions
  of the estate's writes, made against the world as read.
- `audit`, `member`, `preflight`, `agreement`, `territory`, `hygiene`,
  `memory`, `resource`, `import`: audits, the agreement gate, resource
  status and import headroom.
- `census`, `tally`, `load`, `activate`, `additions`, `migrated`: the census
  of a legacy Space, its fingerprint, and the checks of a migration.
- `laws`: properties that span several functions.

`app/` holds what Verus does not see: configuration files, filesystem and
host measurements, the walk of a legacy Space, and the serialized forms of
the reports.
