# solari

Transit routing over static timetables, with the routing itself verified by Verus.

- `src/` is the library. Every function in it states what it returns. Verus proves it, but for
  what is said of functions from outside, which it believes: four wrappers (two make a calendar
  date of a moment, in `moments`, and two read the clock, in `timetable::heartbeat`) and one
  assumed contract (how many bits of a word are set, in `transfers::mapping`). Two types from
  outside, a reading of the clock and an error, are carried through unread.
  - `timetable`: the arrays of a timetable, when they fit together, and how several are joined.
  - `route`: the round based search, in both directions; what is shown of it.
  - `transfers`: the staged preparation of the pedestrian graph that transfers are measured on.
  - `api`: requests, and the queries that they become.
  - `moments`: moments in UTC.
  - `sorting`: stable sorting.
- `tests/` runs the library on small networks and graphs.
- `app/` holds the programs: a server, the export of the pedestrian graph, and the joining of
  timetables. It reads and writes files and speaks HTTP; decisions are the library's.

Distances and positions enter the library by the bit patterns of their doubles. Distances are
compared by rank, which orders them as the doubles are ordered.
