# sqcli

Live and archived waveforms of SeismiQ sensors: listing and finding sensors,
downloading what they recorded, and watching it arrive.

The library under `src/` holds what the program decides and computes, each
function with a contract that Verus proves:

| Module | What it settles |
| --- | --- |
| `cli`, `api`, `devices` | filters, sort orders and the tables of sensors and devices |
| `waveforms` | which sensors a download names, what it asks for, what it tallies |
| `fdsn` | polling the archive without drawing a record twice |
| `seedlink` | the opening conversation with a SeedLink server and its packets |
| `websocket` | the connection through the backend and the frames it relays |
| `watch`, `stream` | which route a sensor is read by, and what a route tells the view |
| `trace`, `tui` | thinning samples for a panel, and what the view shows and does |
| `text`, `text_map`, `order`, `number`, `timestamp`, `mseed` | what the others are made of |

Outside crates are called behind trusted items, each with a doc comment that
names the outside function and says what is claimed of it. Floating-point
numbers are carried by their bit patterns; what has to be rounded is worked out
in `app/` and handed in.

`app/` is the program around the library: the command line, the network and the
terminal. It is built together with the client generated from the API
description (`sensor_api`) and with the modules that read and write miniSEED,
scan the network, print tables and read times (`mseed`, `samples`, `output`,
`scan`, `table`, `timespec`), which are kept elsewhere.
