# scz

The verified core of the Natural Squares clock.

- `src/spiral.rs`: the square spiral of natural numbers (`SpiralIterator`), with a
  closed-form description of every run of the walk and the laws of the layout
  (one cell per number, one number per cell, unit steps, squares filled by the
  first `(2k+1)^2` numbers, squares on the diagonals).
- `src/calendar.rs`: proleptic Gregorian dates (`CivilDate`), leap years, month
  lengths and the day of the year.
- `src/engine.rs`: `NaturalSquaresEngine` with the whole-degree and whole-day parts of
  the clock: zodiac boundaries, the sign that holds a longitude, hour angles and the
  day count of the year.
- `app/`: the window, the GPU drawing and the floating-point astronomy (planet
  positions through the Swiss Ephemeris, Moon phase, sidereal time, daylight), which
  call the library for the grid, the calendar and the zodiac.
