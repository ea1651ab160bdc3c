# msg_level_select

Procedural level maps in the style of a star chart, with the logic verified by Verus.

A layout such as `[1, 3, 1, 3, 3, 1]` asks for six stages with that many stops each.
The library lays them out on the cells of a Voronoi diagram so that every stop reaches
at least one stop of the next stage, threads corridors of waypoints between them, lists
the entities that make up the map, and decides what a visit to one of them does to the
state of the others.

## Layout

- `src/`: the verified library.
  - `generation/`: from sites to a map.
    - `poisson`: which points are tried, kept and given up while sampling.
    - `voronoi`: the diagram, with its cells, neighbors and shared walls.
    - `selection`, `picking`, `ordering`: the stops of each stage.
    - `reach`, `crossing`: what the previous stage reaches, and which of it is picked.
    - `waypoints`: corridors of about the wanted length.
    - `charting`: walls, cells and routes of the finished map.
    - `attempts`: seeds that are tried in turn until one makes a map.
  - `spawn/`: the entities of a map, a budget's worth at a time; their links and states.
  - `visit`: what a visit to a node or a path does.
  - `state`, `config`, `components`, `relationships`: the data.
  - `rng`, `spacing`, `geometry`, `graph`, `sequences`: what the others rest on.
- `app/`: the Bevy plugin around it, and the geometry in floating point.
- `tests/`: the library on concrete values, and the whole pipeline.

Coordinates cross the boundary as bit patterns (`PointBits`), entities as `u64` ids.

## What is proved

Each public function states exactly what it returns or changes. Beyond that, the proof
functions whose names start with `law_` state what holds of the library as a whole. Among
them:

- every stop of a finished selection but those of the last stage leads on, and every
  later stop is led to (`law_every_stop_leads_on`);
- every stage has as many stops as the layout asks for, and no cell is in two stages, or
  a stop and a waypoint;
- neighbors list each other and share a wall; every wall is charted once, and every step
  of a route crosses a charted wall;
- a map comes of the first seed that satisfies its layout;
- the steps of a spawner make up the same map whatever their budgets, and exactly the
  stops, waypoints, paths and crossed walls carry a state;
- nothing but the policy of a map keeps its nodes and paths from being visited;
- a move makes its destination the one active node, where no more than one was active
  before; it stays on its map, and lowers no state but by a revisit.

## What is trusted

Calls into `rand`, `voronoice` and `bevy` stand behind functions marked
`external_body`, each with a comment that says what is taken for granted: the random
streams in `rng`, and the sites, corners and neighbors of a tessellation, with their
coordinates rounded, in `generation/voronoi`. The tessellation itself is made in `app/`.
